use vstd::prelude::*;

use crate::decimal::{parse_price, price_of, Decimal};
use crate::discount::{calculate_discount_percentage, discount_of, Percentage};

verus! {

/// One key/value annotation of a cart line.
#[derive(Clone, Debug, PartialEq, Eq)]
pub struct Attribute {
    pub key: String,
    pub value: String,
}

/// One item of the cart: its id, its current unit price and its attributes.
#[derive(Clone, Debug, PartialEq, Eq)]
pub struct CartLine {
    pub id: String,
    pub unit_price: Decimal,
    pub attributes: Option<Vec<Attribute>>,
}

/// The cart as the host hands it over.
#[derive(Clone, Debug, PartialEq, Eq)]
pub struct Cart {
    pub lines: Vec<CartLine>,
}

/// Lower the price of the line `cart_line_id` by `percentage`.
#[derive(Clone, Debug, PartialEq, Eq)]
pub struct DiscountInstruction {
    pub cart_line_id: String,
    pub percentage: Percentage,
}

impl View for DiscountInstruction {
    type V = (Seq<char>, Percentage);

    open spec fn view(&self) -> (Seq<char>, Percentage) {
        (self.cart_line_id@, self.percentage)
    }
}

/// The attribute key that carries a line's target price.
pub open spec fn price_key() -> Seq<char> {
    seq!['_', 'P', 'r', 'i', 'c', 'e']
}

/// The target price of the first attribute keyed `_Price` whose value reads
/// as a price; later ones are not looked at.
pub open spec fn first_target(attrs: Seq<Attribute>) -> Option<Decimal>
    decreases attrs.len(),
{
    if attrs.len() == 0 {
        None
    } else if attrs[0].key@ == price_key() && price_of(attrs[0].value@) is Some {
        price_of(attrs[0].value@)
    } else {
        first_target(attrs.drop_first())
    }
}

/// The target price of a line's attributes, if any.
pub open spec fn target_of(attributes: Option<Vec<Attribute>>) -> Option<Decimal> {
    match attributes {
        Some(a) => first_target(a@),
        None => None,
    }
}

/// Every line's price is within the decimal bounds.
pub open spec fn lines_wf(lines: Seq<CartLine>) -> bool {
    forall|i: int| 0 <= i < lines.len() ==> (#[trigger] lines[i]).unit_price.wf()
}

/// The instructions for `lines`, in order: one for each line with a target
/// price, carrying its id and the discount from its unit price to that target.
pub open spec fn instructions_for(lines: Seq<CartLine>) -> Seq<(Seq<char>, Percentage)>
    decreases lines.len(),
{
    if lines.len() == 0 {
        Seq::empty()
    } else {
        let before = instructions_for(lines.drop_last());
        let line = lines.last();
        match target_of(line.attributes) {
            Some(t) => before.push((line.id@, discount_of(line.unit_price, t))),
            None => before,
        }
    }
}

/// Tells whether `key` is the price attribute's key.
fn is_price_key(key: &str) -> (r: bool)
    ensures
        r == (key@ == price_key()),
{
    let n = key.unicode_len();
    if n != 6 {
        return false;
    }
    let r = key.get_char(0) == '_' && key.get_char(1) == 'P' && key.get_char(2) == 'r'
        && key.get_char(3) == 'i' && key.get_char(4) == 'c' && key.get_char(5) == 'e';
    proof {
        if r {
            assert(key@ =~= price_key());
        }
    }
    r
}

/// The target price of the first `_Price` attribute whose value reads as a
/// price.
fn first_price(attrs: &Vec<Attribute>) -> (r: Option<Decimal>)
    ensures
        r == first_target(attrs@),
        r matches Some(d) ==> d.wf(),
{
    let mut i: usize = 0;
    proof {
        assert(attrs@.subrange(0, attrs@.len() as int) =~= attrs@);
    }
    while i < attrs.len()
        invariant
            i <= attrs@.len(),
            first_target(attrs@) == first_target(attrs@.subrange(i as int, attrs@.len() as int)),
        decreases attrs@.len() - i,
    {
        let ghost rest = attrs@.subrange(i as int, attrs@.len() as int);
        proof {
            assert(rest.drop_first() =~= attrs@.subrange(i + 1, attrs@.len() as int));
            assert(rest[0] == attrs@[i as int]);
        }
        let attr = &attrs[i];
        if is_price_key(attr.key.as_str()) {
            let parsed = parse_price(attr.value.as_str());
            if parsed.is_some() {
                return parsed;
            }
        }
        i = i + 1;
    }
    proof {
        assert(attrs@.subrange(i as int, attrs@.len() as int).len() == 0);
    }
    None
}

/// The target price that a line's attributes carry, where it has any: the
/// first `_Price` attribute whose value reads as a price.
pub fn find_target_price(attributes: &Option<Vec<Attribute>>) -> (r: Option<Decimal>)
    ensures
        r == target_of(*attributes),
        r matches Some(d) ==> d.wf(),
{
    match attributes.as_ref() {
        None => None,
        Some(attrs) => first_price(attrs),
    }
}

/// The cart's instructions: for each line, in order, that carries a target
/// price, one instruction with the line's id and the discount from its unit
/// price to that target. Other lines get none.
pub fn function(cart: &Cart) -> (r: Vec<DiscountInstruction>)
    requires
        lines_wf(cart.lines@),
    ensures
        r@.map_values(|d: DiscountInstruction| d@) == instructions_for(cart.lines@),
{
    let mut operations: Vec<DiscountInstruction> = Vec::new();
    let mut i: usize = 0;
    while i < cart.lines.len()
        invariant
            i <= cart.lines@.len(),
            lines_wf(cart.lines@),
            operations@.map_values(|d: DiscountInstruction| d@) == instructions_for(
                cart.lines@.subrange(0, i as int),
            ),
        decreases cart.lines@.len() - i,
    {
        let line = &cart.lines[i];
        proof {
            assert(cart.lines@.subrange(0, i + 1).drop_last() =~= cart.lines@.subrange(0, i as int));
            assert(line.unit_price.wf());
        }
        match find_target_price(&line.attributes) {
            Some(target) => {
                let percentage = calculate_discount_percentage(line.unit_price, target);
                let ghost before = operations@;
                operations.push(DiscountInstruction { cart_line_id: line.id.clone(), percentage });
                proof {
                    assert(operations@.map_values(|d: DiscountInstruction| d@) =~= before.map_values(
                        |d: DiscountInstruction| d@,
                    ).push((line.id@, percentage)));
                }
            },
            None => {},
        }
        i = i + 1;
    }
    proof {
        assert(cart.lines@.subrange(0, i as int) =~= cart.lines@);
    }
    operations
}

/// The instructions for two runs of lines, one after the other, are those of
/// the first run followed by those of the second.
pub proof fn lemma_instructions_concat(a: Seq<CartLine>, b: Seq<CartLine>)
    ensures
        instructions_for(a + b) == instructions_for(a) + instructions_for(b),
    decreases b.len(),
{
    if b.len() == 0 {
        assert(a + b =~= a);
        assert(instructions_for(a) + instructions_for(b) =~= instructions_for(a));
    } else {
        assert((a + b).drop_last() =~= a + b.drop_last());
        assert((a + b).last() == b.last());
        lemma_instructions_concat(a, b.drop_last());
        let x = instructions_for(a);
        let y = instructions_for(b.drop_last());
        let line = b.last();
        match target_of(line.attributes) {
            Some(t) => {
                assert((x + y).push((line.id@, discount_of(line.unit_price, t))) =~= x + y.push(
                    (line.id@, discount_of(line.unit_price, t)),
                ));
            },
            None => {},
        }
    }
}

/// No attribute keyed `_Price` gives no target price.
proof fn lemma_no_price_key(attrs: Seq<Attribute>)
    requires
        forall|i: int| 0 <= i < attrs.len() ==> (#[trigger] attrs[i]).key@ != price_key(),
    ensures
        first_target(attrs) is None,
    decreases attrs.len(),
{
    if attrs.len() > 0 {
        assert(attrs[0].key@ != price_key());
        assert forall|i: int| 0 <= i < attrs.drop_first().len() implies (
        #[trigger] attrs.drop_first()[i]).key@ != price_key() by {
            assert(attrs.drop_first()[i] == attrs[i + 1]);
        }
        lemma_no_price_key(attrs.drop_first());
    }
}

/// A line with no attributes, or with none keyed `_Price`, adds no instruction,
/// wherever it stands in the cart.
pub proof fn lemma_line_without_price_adds_nothing(
    before: Seq<CartLine>,
    line: CartLine,
    after: Seq<CartLine>,
)
    requires
        match line.attributes {
            Some(a) => forall|i: int| 0 <= i < a@.len() ==> (#[trigger] a@[i]).key@ != price_key(),
            None => true,
        },
    ensures
        instructions_for(before + seq![line] + after) == instructions_for(before + after),
{
    if let Some(a) = line.attributes {
        lemma_no_price_key(a@);
    }
    let single = seq![line];
    assert(single.drop_last() =~= Seq::<CartLine>::empty());
    assert(instructions_for(Seq::<CartLine>::empty()) =~= Seq::empty());
    assert(instructions_for(single) =~= Seq::empty());
    lemma_instructions_concat(before, single);
    lemma_instructions_concat(before + single, after);
    lemma_instructions_concat(before, after);
    assert(instructions_for(before) + instructions_for(single) =~= instructions_for(before));
}

} // verus!
