//! Values quoted inside messages.

use vstd::prelude::*;
use vstd::string::StringExecFns;

verus! {

/// A value set apart from the prose around it.
pub open spec fn code(s: Seq<char>) -> Seq<char> {
    "`"@ + s + "`"@
}

/// Set a value apart from the prose around it.
pub fn code_str(value: &str) -> (quoted: String)
    ensures
        quoted@ == code(value@),
{
    let mut quoted = String::new();
    quoted.append("`");
    quoted.append(value);
    quoted.append("`");
    proof {
        assert(quoted@ =~= code(value@));
    }
    quoted
}

/// Three texts in a row.
pub fn concat3(a: &str, b: &str, c: &str) -> (result: String)
    ensures
        result@ == a@ + b@ + c@,
{
    let mut result = String::new();
    result.append(a);
    result.append(b);
    result.append(c);
    proof {
        assert(result@ =~= a@ + b@ + c@);
    }
    result
}

/// Texts with a separator between them.
pub open spec fn joined(items: Seq<Seq<char>>, separator: Seq<char>) -> Seq<char>
    decreases items.len(),
{
    if items.len() == 0 {
        Seq::empty()
    } else if items.len() == 1 {
        items[0]
    } else {
        joined(items.drop_last(), separator) + separator + items.last()
    }
}

/// Joining goes item by item from the front as well.
pub proof fn lemma_joined_front(first: Seq<char>, rest: Seq<Seq<char>>, separator: Seq<char>)
    requires
        rest.len() > 0,
    ensures
        joined(seq![first] + rest, separator) == first + separator + joined(
            rest,
            separator,
        ),
    decreases rest.len(),
{
    let items = seq![first] + rest;
    if rest.len() == 1 {
        assert(items.drop_last() =~= seq![first]);
        assert(joined(seq![first], separator) == first);
        assert(items.last() == rest[0]);
    } else {
        assert(items.drop_last() =~= seq![first] + rest.drop_last());
        lemma_joined_front(first, rest.drop_last(), separator);
        assert(items.last() == rest.last());
    }
    assert(joined(items, separator) =~= first + separator + joined(
        rest,
        separator,
    ));
}

/// The texts in a vector of strings.
pub open spec fn text_views(items: Seq<String>) -> Seq<Seq<char>> {
    items.map_values(|item: String| item@)
}

/// Put a separator between texts.
pub fn join(items: &Vec<String>, separator: &str) -> (result: String)
    ensures
        result@ == joined(text_views(items@), separator@),
{
    let ghost views = text_views(items@);
    let mut result = String::new();
    let mut i: usize = 0;
    proof {
        assert(views.take(0) =~= Seq::<Seq<char>>::empty());
    }
    while i < items.len()
        invariant
            views == text_views(items@),
            i <= items@.len(),
            result@ == joined(views.take(i as int), separator@),
        decreases items.len() - i,
    {
        proof {
            assert(views.take(i + 1).drop_last() =~= views.take(i as int));
        }
        if i > 0 {
            result.append(separator);
        }
        result.append(items[i].as_str());
        proof {
            assert(result@ =~= joined(views.take(i + 1), separator@));
        }
        i = i + 1;
    }
    proof {
        assert(views.take(i as int) =~= views);
    }
    result
}

} // verus!
