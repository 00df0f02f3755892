//! Painting rules that need no geometry: which property gives a box its colour.
use vstd::prelude::*;
use crate::css::{CssValue, Value};
use crate::style::StyledNode;

verus! {

/// A value that stands for a colour: a plain colour or a colour function.
pub open spec fn is_color_value(v: CssValue) -> bool {
    v is Color || v is ColorFunction
}

/// The value of the first of `names` that `m` sets to a colour.
pub open spec fn first_color(m: Map<Seq<char>, CssValue>, names: Seq<Seq<char>>) -> Option<CssValue>
    decreases names.len(),
{
    if names.len() == 0 {
        None
    } else if m.contains_key(names[0]) && is_color_value(m[names[0]]) {
        Some(m[names[0]])
    } else {
        first_color(m, names.drop_first())
    }
}

/// The first of the named properties that holds a colour (a box's background
/// is `background-color`, else `background`; its border colour is
/// `border-color`, else `border-top-color`, else `color`).
pub fn color_value(style: &StyledNode, names: &[&str]) -> (r: Option<Value>)
    ensures
        match r {
            Some(v) => first_color(style@.values, names@.map_values(|n: &str| n@)) == Some(v@),
            None => first_color(style@.values, names@.map_values(|n: &str| n@)) is None,
        },
{
    let ghost all = names@.map_values(|n: &str| n@);
    let mut i: usize = 0;
    assert(all.skip(0) == all);
    while i < names.len()
        invariant
            i <= names@.len(),
            all == names@.map_values(|n: &str| n@),
            first_color(style@.values, all) == first_color(style@.values, all.skip(i as int)),
        decreases names.len() - i,
    {
        assert(all.skip(i as int)[0] == names@[i as int]@);
        assert(all.skip(i as int).drop_first() == all.skip(i + 1));
        match style.value(names[i]) {
            Some(v) => {
                match &v {
                    Value::ColorValue(_) => {
                        return Some(v);
                    },
                    Value::ColorFunction(_, _) => {
                        return Some(v);
                    },
                    _ => {},
                }
            },
            None => {},
        }
        i += 1;
    }
    None
}

} // verus!
