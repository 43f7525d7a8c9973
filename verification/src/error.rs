//! Errors of a repository inventory.

use vstd::prelude::*;

use crate::text::push_text;

verus! {

/// Why a repository inventory failed. An I/O failure carries the text of
/// the underlying error.
#[derive(Debug)]
pub enum InventoryError {
    Io { context: String, message: String },
    Configuration { path: Option<String>, message: String },
    InvalidInput { message: String },
    CategoryConflict { path: String, selector: String, categories: Vec<String> },
}

} // verus!

verus! {

/// The text of an inventory error.
pub open spec fn inventory_error_text(e: InventoryError) -> Seq<char> {
    match e {
        InventoryError::Io { context, message } => context@ + ": "@ + message@,
        InventoryError::Configuration { path, message } => match path {
            Some(p) => "invalid configuration "@ + p@ + ": "@ + message@,
            None => "invalid embedded configuration: "@ + message@,
        },
        InventoryError::InvalidInput { message } => "invalid input: "@ + message@,
        InventoryError::CategoryConflict { path, selector, categories } => "category conflict for "@ + path@ + ": "@
            + selector@ + " matches "@ + crate::output::join_comma(categories@.map_values(|c: String| c@)),
    }
}

pub(crate) fn push_joined(out: &mut String, items: &Vec<String>)
    ensures
        final(out)@ == old(out)@ + crate::output::join_comma(items@.map_values(|c: String| c@)),
{
    let ghost start = out@;
    let ghost v = items@.map_values(|c: String| c@);
    let mut i: usize = 0;
    while i < items.len()
        invariant
            i <= items.len(),
            v == items@.map_values(|c: String| c@),
            out@ == start + crate::output::join_comma(v.take(i as int)),
        decreases items.len() - i,
    {
        proof {
            assert(v.take(i + 1).drop_last() =~= v.take(i as int));
            assert(v.take(i + 1).last() == items@[i as int]@);
            if i == 0 {
                assert(v.take(0) =~= Seq::<Seq<char>>::empty());
            }
        }
        if i > 0 {
            push_text(out, ", ");
        }
        push_text(out, items[i].as_str());
        proof {
            if i == 0 {
                assert(crate::output::join_comma(v.take(1)) == v.take(1)[0]);
            }
            assert(out@ =~= start + crate::output::join_comma(v.take(i + 1)));
        }
        i = i + 1;
    }
    proof {
        assert(v.take(items.len() as int) =~= v);
    }
}

impl InventoryError {
    /// An I/O failure, with what was being done.
    pub fn io(context: &str, message: &str) -> (r: InventoryError)
        ensures
            r matches InventoryError::Io { context: c, message: m } && c@ == context@ && m@ == message@,
    {
        InventoryError::Io { context: context.to_owned(), message: message.to_owned() }
    }

    /// An invalid configuration, of the file at `path` or of the embedded
    /// one.
    pub fn configuration(path: Option<String>, message: &str) -> (r: InventoryError)
        ensures
            r matches InventoryError::Configuration { path: p, message: m } && p == path && m@ == message@,
    {
        InventoryError::Configuration { path, message: message.to_owned() }
    }

    /// An invalid input.
    pub fn invalid_input(message: &str) -> (r: InventoryError)
        ensures
            r matches InventoryError::InvalidInput { message: m } && m@ == message@,
    {
        InventoryError::InvalidInput { message: message.to_owned() }
    }

    /// The error text.
    pub fn message(&self) -> (r: String)
        ensures
            r@ == inventory_error_text(*self),
    {
        let mut out = String::new();
        match self {
            InventoryError::Io { context, message } => {
                push_text(&mut out, context.as_str());
                push_text(&mut out, ": ");
                push_text(&mut out, message.as_str());
            },
            InventoryError::Configuration { path, message } => {
                match path {
                    Some(p) => {
                        push_text(&mut out, "invalid configuration ");
                        push_text(&mut out, p.as_str());
                        push_text(&mut out, ": ");
                    },
                    None => {
                        push_text(&mut out, "invalid embedded configuration: ");
                    },
                }
                push_text(&mut out, message.as_str());
            },
            InventoryError::InvalidInput { message } => {
                push_text(&mut out, "invalid input: ");
                push_text(&mut out, message.as_str());
            },
            InventoryError::CategoryConflict { path, selector, categories } => {
                push_text(&mut out, "category conflict for ");
                push_text(&mut out, path.as_str());
                push_text(&mut out, ": ");
                push_text(&mut out, selector.as_str());
                push_text(&mut out, " matches ");
                push_joined(&mut out, categories);
            },
        }
        assert(out@ =~= inventory_error_text(*self));
        out
    }
}

} // verus!
