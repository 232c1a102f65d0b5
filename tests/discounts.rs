use cart_transform::cart::{find_target_price, function, Attribute, Cart, CartLine};
use cart_transform::decimal::{parse_decimal, parse_price, Decimal};
use cart_transform::discount::{calculate_discount_percentage, Percentage};

fn dec(units: i64, scale: u32) -> Decimal {
    Decimal { units, scale }
}

fn gcd(a: i128, b: i128) -> i128 {
    if b == 0 { a.abs() } else { gcd(b, a % b) }
}

/// `p` in lowest terms.
fn reduced(p: Percentage) -> (i128, i128) {
    let g = gcd(p.numerator, p.denominator);
    (p.numerator / g, p.denominator / g)
}

/// Whether `p` equals `n / d` percent.
fn is_percent(p: Percentage, n: i128, d: i128) -> bool {
    let (pn, pd) = reduced(p);
    p.denominator > 0 && pn * d == n * pd
}

fn attr(key: &str, value: &str) -> Attribute {
    Attribute { key: key.to_string(), value: value.to_string() }
}

fn line(id: &str, price: Decimal, attributes: Option<Vec<Attribute>>) -> CartLine {
    CartLine { id: id.to_string(), unit_price: price, attributes }
}

#[test]
fn percentage_stays_within_range() {
    let original = dec(1000, 0);
    for target in [dec(-5000, 0), dec(0, 0), dec(1, 2), dec(500, 0), dec(999999, 3), dec(1000, 0), dec(7000, 0)] {
        let p = calculate_discount_percentage(original, target);
        assert!(p.denominator > 0);
        assert!(p.numerator >= 0);
        assert!(p.numerator <= 100 * p.denominator);
    }
}

#[test]
fn nonpositive_original_gives_no_discount() {
    for original in [dec(0, 0), dec(-1, 0), dec(-1999, 2)] {
        for target in [dec(-10, 0), dec(0, 0), dec(600, 0)] {
            let p = calculate_discount_percentage(original, target);
            assert_eq!(p, Percentage { numerator: 0, denominator: 1 });
        }
    }
}

#[test]
fn equal_target_gives_no_discount() {
    let p = calculate_discount_percentage(dec(1999, 2), dec(1999, 2));
    assert!(is_percent(p, 0, 1));
    let q = calculate_discount_percentage(dec(50, 0), dec(5000, 2));
    assert!(is_percent(q, 0, 1));
}

#[test]
fn zero_target_gives_full_discount() {
    let p = calculate_discount_percentage(dec(1999, 2), dec(0, 0));
    assert!(is_percent(p, 100, 1));
    let q = calculate_discount_percentage(dec(1, 18), dec(0, 5));
    assert!(is_percent(q, 100, 1));
}

#[test]
fn negative_target_is_clamped_to_full_discount() {
    let p = calculate_discount_percentage(dec(1000, 0), dec(-5, 0));
    assert!(is_percent(p, 100, 1));
}

#[test]
fn lower_target_gives_larger_discount() {
    let original = dec(1000, 0);
    let targets = [dec(1200, 0), dec(1000, 0), dec(99999, 2), dec(600, 0), dec(1, 0), dec(0, 0), dec(-3, 0)];
    for w in targets.windows(2) {
        let (hn, hd) = reduced(calculate_discount_percentage(original, w[0]));
        let (ln, ld) = reduced(calculate_discount_percentage(original, w[1]));
        assert!(ln * hd >= hn * ld);
    }
}

#[test]
fn fractional_discount_is_exact() {
    let p = calculate_discount_percentage(dec(1000, 0), dec(333, 0));
    assert!(is_percent(p, 667, 10));
    let q = calculate_discount_percentage(dec(1999, 2), dec(1000, 2));
    assert!(is_percent(q, 99900, 1999));
}

#[test]
fn line_without_price_attribute_yields_nothing() {
    let cart = Cart {
        lines: vec![
            line("gid://shopify/CartLine/1", dec(1000, 0), None),
            line("gid://shopify/CartLine/2", dec(1000, 0), Some(vec![])),
            line("gid://shopify/CartLine/3", dec(1000, 0), Some(vec![attr("_Engraving", "$600"), attr("Price", "$600")])),
        ],
    };
    assert!(function(&cart).is_empty());
}

#[test]
fn price_600_on_1000_gives_forty_percent() {
    let cart = Cart { lines: vec![line("line-1", dec(1000, 0), Some(vec![attr("_Price", "$600")]))] };
    let out = function(&cart);
    assert_eq!(out.len(), 1);
    assert_eq!(out[0].cart_line_id, "line-1");
    assert!(is_percent(out[0].percentage, 40, 1));
}

#[test]
fn unreadable_price_yields_nothing() {
    for value in ["abc", "600", "$abc", "$", "$.", "$6$00", "$1.2.3", "$1e3", "$ 600", "600$", ""] {
        let cart = Cart { lines: vec![line("line-1", dec(1000, 0), Some(vec![attr("_Price", value)]))] };
        assert!(function(&cart).is_empty(), "value {:?}", value);
    }
}

#[test]
fn price_above_original_gives_zero_percent() {
    let cart = Cart { lines: vec![line("line-1", dec(1000, 0), Some(vec![attr("_Price", "$1500")]))] };
    let out = function(&cart);
    assert_eq!(out.len(), 1);
    assert_eq!(out[0].cart_line_id, "line-1");
    assert!(is_percent(out[0].percentage, 0, 1));
}

#[test]
fn only_the_matching_line_gets_an_instruction() {
    let cart = Cart {
        lines: vec![
            line("first", dec(1000, 0), None),
            line("second", dec(2000, 0), Some(vec![attr("_Price", "$500")])),
            line("third", dec(3000, 0), Some(vec![attr("Color", "red")])),
        ],
    };
    let out = function(&cart);
    assert_eq!(out.len(), 1);
    assert_eq!(out[0].cart_line_id, "second");
    assert!(is_percent(out[0].percentage, 75, 1));
}

#[test]
fn instructions_keep_cart_order() {
    let cart = Cart {
        lines: vec![
            line("a", dec(100, 0), Some(vec![attr("_Price", "$50")])),
            line("b", dec(100, 0), None),
            line("c", dec(200, 0), Some(vec![attr("_Price", "$150")])),
        ],
    };
    let out = function(&cart);
    assert_eq!(out.len(), 2);
    assert_eq!(out[0].cart_line_id, "a");
    assert!(is_percent(out[0].percentage, 50, 1));
    assert_eq!(out[1].cart_line_id, "c");
    assert!(is_percent(out[1].percentage, 25, 1));
}

#[test]
fn first_readable_price_attribute_wins() {
    let attrs = Some(vec![attr("Color", "$1"), attr("_Price", "abc"), attr("_Price", "$600"), attr("_Price", "$700")]);
    assert_eq!(find_target_price(&attrs), Some(dec(600, 0)));
    assert_eq!(find_target_price(&None), None);
    assert_eq!(find_target_price(&Some(vec![])), None);
}

#[test]
fn nonpositive_unit_price_gets_zero_percent() {
    let cart = Cart { lines: vec![line("free", dec(0, 0), Some(vec![attr("_Price", "$10")]))] };
    let out = function(&cart);
    assert_eq!(out.len(), 1);
    assert!(is_percent(out[0].percentage, 0, 1));
}

#[test]
fn price_text_forms() {
    assert_eq!(parse_price("$600"), Some(dec(600, 0)));
    assert_eq!(parse_price("$19.99"), Some(dec(1999, 2)));
    assert_eq!(parse_price("$-5"), Some(dec(-5, 0)));
    assert_eq!(parse_price("$+7.5"), Some(dec(75, 1)));
    assert_eq!(parse_price("$.5"), Some(dec(5, 1)));
    assert_eq!(parse_price("$5."), Some(dec(5, 0)));
    assert_eq!(parse_price("$007"), Some(dec(7, 0)));
    assert_eq!(parse_price("$-"), None);
    assert_eq!(parse_price("$+.5x"), None);
    assert_eq!(parse_price("$--5"), None);
}

#[test]
fn price_text_bounds() {
    assert_eq!(parse_price("$999999999999999999"), Some(dec(999_999_999_999_999_999, 0)));
    assert_eq!(parse_price("$1000000000000000000"), None);
    assert_eq!(parse_price("$0.000000000000000001"), Some(dec(1, 18)));
    assert_eq!(parse_price("$0.0000000000000000001"), None);
    assert_eq!(parse_price("$99999999999999999999x"), None);
}

#[test]
fn plain_decimal_forms() {
    assert_eq!(parse_decimal("1000.0"), Some(dec(10000, 1)));
    assert_eq!(parse_decimal("0"), Some(dec(0, 0)));
    assert_eq!(parse_decimal("-12.345"), Some(dec(-12345, 3)));
    assert_eq!(parse_decimal("$1"), None);
    assert_eq!(parse_decimal(""), None);
    assert_eq!(parse_decimal("1,000"), None);
}

#[test]
fn extreme_prices_stay_exact() {
    let big = dec(999_999_999_999_999_999, 0);
    let tiny = dec(1, 18);
    let p = calculate_discount_percentage(big, tiny);
    assert!(p.numerator > 0 && p.numerator < 100 * p.denominator);
    let q = calculate_discount_percentage(big, dec(-999_999_999_999_999_999, 0));
    assert!(is_percent(q, 100, 1));
}
