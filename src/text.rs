//! The brace-delimited listing that shows a set's members.

use vstd::prelude::*;
use vstd::string::StringExecFns;

verus! {

/// `items` with `", "` between each two.
pub open spec fn joined(items: Seq<Seq<char>>) -> Seq<char>
    decreases items.len(),
{
    if items.len() == 0 {
        Seq::empty()
    } else if items.len() == 1 {
        items[0]
    } else {
        joined(items.drop_last()) + seq![',', ' '] + items.last()
    }
}

/// `items` joined, between `{` and `}`.
pub open spec fn braced(items: Seq<Seq<char>>) -> Seq<char> {
    seq!['{'] + joined(items) + seq!['}']
}

/// The text of each string.
pub open spec fn texts(v: Seq<String>) -> Seq<Seq<char>> {
    v.map_values(|s: String| s@)
}

/// Writes `entries` as `{a, b, c}`.
pub fn format_entries(entries: &Vec<String>) -> (r: String)
    ensures
        r@ == braced(texts(entries@)),
{
    let mut body = String::new();
    let mut i: usize = 0;
    proof {
        reveal_strlit("{");
        reveal_strlit("}");
        reveal_strlit(", ");
        assert(texts(entries@).take(0) =~= Seq::<Seq<char>>::empty());
    }
    while i < entries.len()
        invariant
            i <= entries@.len(),
            body@ == joined(texts(entries@).take(i as int)),
        decreases entries@.len() - i,
    {
        proof {
            reveal_strlit(", ");
            let t = texts(entries@);
            assert(t.take(i + 1).drop_last() =~= t.take(i as int));
            assert(t.take(i + 1).last() == entries@[i as int]@);
        }
        if i > 0 {
            body.append(", ");
        } else {
            proof {
                assert(body@ =~= Seq::<char>::empty());
            }
        }
        body.append(entries[i].as_str());
        i = i + 1;
        proof {
            let t = texts(entries@);
            if i == 1 {
                assert(body@ =~= t.take(1)[0]);
            }
        }
    }
    let mut out = String::from_str("{");
    out.append(body.as_str());
    out.append("}");
    proof {
        assert(texts(entries@).take(entries@.len() as int) =~= texts(entries@));
        assert(out@ =~= braced(texts(entries@)));
    }
    out
}

/// Relies on `format!` with `{:?}`: the value's `Debug` text, whatever its
/// impl writes.
#[verifier::external_body]
pub(crate) fn debug_text<T: core::fmt::Debug>(x: &T) -> String {
    format!("{:?}", x)
}

} // verus!
