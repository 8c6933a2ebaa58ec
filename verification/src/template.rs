//! Template tree as the compiler's checks and emitters read it: elements
//! with attributes and children, text, and `{..}` interpolations.

use vstd::prelude::*;
use crate::text::{chars_eq, to_chars};

verus! {

/// The value of a template attribute.
#[derive(Debug, Clone)]
pub enum AttrValue {
    /// `name="text"` (an attribute written bare has empty text).
    Static(String),
    /// `name={expr}`
    Interp(String),
}

/// One attribute of an element.
#[derive(Debug, Clone)]
pub struct TemplateAttr {
    pub name: String,
    pub value: AttrValue,
}

/// One node of a template.
#[derive(Debug)]
pub enum TemplateNode {
    Element { tag: String, attrs: Vec<TemplateAttr>, children: Vec<TemplateNode> },
    Text(String),
    Interp(String),
}

/// A parsed template: its root nodes.
#[derive(Debug)]
pub struct TemplateIr {
    pub roots: Vec<TemplateNode>,
}

/// Index of the first attribute named `name`.
pub open spec fn first_attr(attrs: Seq<TemplateAttr>, name: Seq<char>) -> Option<int> {
    if exists|i: int| 0 <= i < attrs.len() && attrs[i].name@ == name {
        Some(choose|i: int| 0 <= i < attrs.len() && attrs[i].name@ == name && forall|k: int|
            0 <= k < i ==> (#[trigger] attrs[k]).name@ != name)
    } else {
        None
    }
}

/// Index of the first attribute named `name`.
pub fn find_attr(attrs: &[TemplateAttr], name: &[char]) -> (r: Option<usize>)
    ensures
        match r {
            Some(i) => first_attr(attrs@, name@) == Some(i as int) && i < attrs.len(),
            None => first_attr(attrs@, name@) is None,
        },
{
    let mut i: usize = 0;
    while i < attrs.len()
        invariant
            i <= attrs.len(),
            forall|k: int| 0 <= k < i ==> (#[trigger] attrs@[k]).name@ != name@,
        decreases attrs.len() - i,
    {
        let n = to_chars(attrs[i].name.as_str());
        if chars_eq(n.as_slice(), name) {
            proof {
                let j = i as int;
                assert(0 <= j < attrs@.len() && attrs@[j].name@ == name@ && forall|k: int|
                    0 <= k < j ==> (#[trigger] attrs@[k]).name@ != name@);
                let c = choose|c: int| 0 <= c < attrs@.len() && attrs@[c].name@ == name@ && forall|k: int|
                    0 <= k < c ==> (#[trigger] attrs@[k]).name@ != name@;
                if c < j {
                    assert(attrs@[c].name@ != name@);
                } else if c > j {
                    assert(attrs@[j].name@ != name@);
                }
            }
            return Some(i);
        }
        i = i + 1;
    }
    None
}

/// The value of the first interpolated attribute named `name`.
pub open spec fn attr_interp_spec(attrs: Seq<TemplateAttr>, name: Seq<char>) -> Option<Seq<char>> {
    if exists|i: int| 0 <= i < attrs.len() && attrs[i].name@ == name && attrs[i].value is Interp {
        let i = choose|i: int|
            0 <= i < attrs.len() && attrs[i].name@ == name && attrs[i].value is Interp && forall|k: int|
                0 <= k < i ==> !((#[trigger] attrs[k]).name@ == name && attrs[k].value is Interp);
        Some(attrs[i].value->Interp_0@)
    } else {
        None
    }
}

/// The value of the first static attribute named `name`.
pub open spec fn attr_static_spec(attrs: Seq<TemplateAttr>, name: Seq<char>) -> Option<Seq<char>> {
    if exists|i: int| 0 <= i < attrs.len() && attrs[i].name@ == name && attrs[i].value is Static {
        let i = choose|i: int|
            0 <= i < attrs.len() && attrs[i].name@ == name && attrs[i].value is Static && forall|k: int|
                0 <= k < i ==> !((#[trigger] attrs[k]).name@ == name && attrs[k].value is Static);
        Some(attrs[i].value->Static_0@)
    } else {
        None
    }
}

/// The expression of the first `name={expr}` attribute.
pub fn attr_interp(attrs: &[TemplateAttr], name: &str) -> (r: Option<String>)
    ensures
        match r {
            Some(e) => attr_interp_spec(attrs@, name@) == Some(e@),
            None => attr_interp_spec(attrs@, name@) is None,
        },
{
    let want = to_chars(name);
    let mut i: usize = 0;
    while i < attrs.len()
        invariant
            i <= attrs.len(),
            want@ == name@,
            forall|k: int| 0 <= k < i ==> !((#[trigger] attrs@[k]).name@ == name@ && attrs@[k].value is Interp),
        decreases attrs.len() - i,
    {
        let n = to_chars(attrs[i].name.as_str());
        if chars_eq(n.as_slice(), want.as_slice()) {
            match &attrs[i].value {
                AttrValue::Interp(e) => {
                    proof {
                        let j = i as int;
                        assert(0 <= j < attrs@.len() && attrs@[j].name@ == name@ && attrs@[j].value is Interp && forall|k: int|
                            0 <= k < j ==> !((#[trigger] attrs@[k]).name@ == name@ && attrs@[k].value is Interp));
                        let c = choose|c: int|
                            0 <= c < attrs@.len() && attrs@[c].name@ == name@ && attrs@[c].value is Interp && forall|k: int|
                                0 <= k < c ==> !((#[trigger] attrs@[k]).name@ == name@ && attrs@[k].value is Interp);
                        if c < j {
                            assert(!(attrs@[c].name@ == name@ && attrs@[c].value is Interp));
                        } else if c > j {
                            assert(!(attrs@[j].name@ == name@ && attrs@[j].value is Interp));
                        }
                    }
                    return Some(e.clone());
                },
                AttrValue::Static(_) => {},
            }
        }
        i = i + 1;
    }
    None
}

/// The text of the first `name="text"` attribute.
pub fn attr_static(attrs: &[TemplateAttr], name: &str) -> (r: Option<String>)
    ensures
        match r {
            Some(e) => attr_static_spec(attrs@, name@) == Some(e@),
            None => attr_static_spec(attrs@, name@) is None,
        },
{
    let want = to_chars(name);
    let mut i: usize = 0;
    while i < attrs.len()
        invariant
            i <= attrs.len(),
            want@ == name@,
            forall|k: int| 0 <= k < i ==> !((#[trigger] attrs@[k]).name@ == name@ && attrs@[k].value is Static),
        decreases attrs.len() - i,
    {
        let n = to_chars(attrs[i].name.as_str());
        if chars_eq(n.as_slice(), want.as_slice()) {
            match &attrs[i].value {
                AttrValue::Static(e) => {
                    proof {
                        let j = i as int;
                        assert(0 <= j < attrs@.len() && attrs@[j].name@ == name@ && attrs@[j].value is Static && forall|k: int|
                            0 <= k < j ==> !((#[trigger] attrs@[k]).name@ == name@ && attrs@[k].value is Static));
                        let c = choose|c: int|
                            0 <= c < attrs@.len() && attrs@[c].name@ == name@ && attrs@[c].value is Static && forall|k: int|
                                0 <= k < c ==> !((#[trigger] attrs@[k]).name@ == name@ && attrs@[k].value is Static);
                        if c < j {
                            assert(!(attrs@[c].name@ == name@ && attrs@[c].value is Static));
                        } else if c > j {
                            assert(!(attrs@[j].name@ == name@ && attrs@[j].value is Static));
                        }
                    }
                    return Some(e.clone());
                },
                AttrValue::Interp(_) => {},
            }
        }
        i = i + 1;
    }
    None
}

/// Whether some attribute `name` is written bare (static and empty).
pub fn has_bare_attr(attrs: &[TemplateAttr], name: &str) -> (r: bool)
    ensures
        r == exists|i: int|
            0 <= i < attrs.len() && (#[trigger] attrs@[i]).name@ == name@ && attrs@[i].value is Static
                && attrs@[i].value->Static_0@.len() == 0,
{
    let want = to_chars(name);
    let mut i: usize = 0;
    while i < attrs.len()
        invariant
            i <= attrs.len(),
            want@ == name@,
            forall|k: int|
                0 <= k < i ==> !((#[trigger] attrs@[k]).name@ == name@ && attrs@[k].value is Static
                    && attrs@[k].value->Static_0@.len() == 0),
        decreases attrs.len() - i,
    {
        let n = to_chars(attrs[i].name.as_str());
        if chars_eq(n.as_slice(), want.as_slice()) {
            match &attrs[i].value {
                AttrValue::Static(s) => {
                    if s.as_str().is_empty() {
                        return true;
                    }
                },
                AttrValue::Interp(_) => {},
            }
        }
        i = i + 1;
    }
    false
}

} // verus!
