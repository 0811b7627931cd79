//! The HTML template engine: `{{ name }}` placeholders filled from a dictionary.

use crate::model::{view_entries, Val};
use crate::text::{chars_of, concat, from_str, push_char};
use crate::value::{display, Value};
use vstd::prelude::*;

verus! {

broadcast use crate::model::group_value_views;

/// `s` with every occurrence of `from` replaced by `to`, occurrences found from
/// the left and not overlapping (as `str::replace` does).
pub open spec fn replace_all(s: Seq<char>, from: Seq<char>, to: Seq<char>) -> Seq<char>
    decreases s.len(),
{
    if from.len() == 0 || s.len() < from.len() {
        s
    } else if s.subrange(0, from.len() as int) == from {
        to + replace_all(s.subrange(from.len() as int, s.len() as int), from, to)
    } else {
        seq![s[0]] + replace_all(s.drop_first(), from, to)
    }
}

/// The placeholder `{{ key }}`.
pub open spec fn spaced_placeholder(key: Seq<char>) -> Seq<char> {
    "{{ "@ + key + " }}"@
}

/// The placeholder `{{key}}`.
pub open spec fn tight_placeholder(key: Seq<char>) -> Seq<char> {
    "{{"@ + key + "}}"@
}

/// The template after the placeholders of the given entries are filled in,
/// entry after entry, each first in its spaced form and then in its tight form.
pub open spec fn render_entries(template: Seq<char>, ctx: Seq<(Seq<char>, Val)>) -> Seq<char>
    decreases ctx.len(),
{
    if ctx.len() == 0 {
        template
    } else {
        let before = render_entries(template, ctx.drop_last());
        let (key, value) = ctx.last();
        replace_all(
            replace_all(before, spaced_placeholder(key), display(value)),
            tight_placeholder(key),
            display(value),
        )
    }
}

/// Replaces every occurrence of `from` in `s` by `to`.
pub fn replace(s: &str, from: &str, to: &str) -> (r: String)
    requires
        from@.len() > 0,
    ensures
        r@ == replace_all(s@, from@, to@),
{
    let cs = chars_of(s);
    let fs = chars_of(from);
    let n = cs.len();
    let m = fs.len();
    let mut out = String::new();
    let mut i: usize = 0;
    assert(s@.subrange(0, n as int) =~= s@);
    assert(out@ + replace_all(s@, from@, to@) =~= replace_all(s@, from@, to@));
    while i < n
        invariant
            cs@ == s@,
            fs@ == from@,
            n == cs.len(),
            m == fs.len(),
            m > 0,
            i <= n,
            out@ + replace_all(s@.subrange(i as int, n as int), from@, to@) == replace_all(
                s@,
                from@,
                to@,
            ),
        decreases n - i,
    {
        let ghost rest = s@.subrange(i as int, n as int);
        let mut matched = false;
        if n - i >= m {
            let mut k: usize = 0;
            while k < m && cs[i + k] == fs[k]
                invariant
                    cs@ == s@,
                    fs@ == from@,
                    n == cs.len(),
                    m == fs.len(),
                    i + m <= n,
                    k <= m,
                    forall|j: int| 0 <= j < k ==> cs@[i + j] == fs@[j],
                decreases m - k,
            {
                k = k + 1;
            }
            matched = k == m;
            if matched {
                assert(rest.subrange(0, m as int) =~= from@);
            } else {
                assert(rest.subrange(0, m as int)[k as int] != from@[k as int]);
            }
        }
        if matched {
            let ghost prev = out@;
            out.append(to);
            proof {
                assert(rest.subrange(m as int, rest.len() as int) =~= s@.subrange(i + m, n as int));
                assert(prev + replace_all(rest, from@, to@) =~= out@ + replace_all(
                    s@.subrange(i + m, n as int),
                    from@,
                    to@,
                ));
            }
            i = i + m;
        } else {
            let ghost prev = out@;
            push_char(&mut out, cs[i]);
            proof {
                assert(rest.drop_first() =~= s@.subrange(i + 1, n as int));
                assert(rest[0] == cs@[i as int]);
                assert(prev + replace_all(rest, from@, to@) =~= out@ + replace_all(
                    rest.drop_first(),
                    from@,
                    to@,
                ));
            }
            i = i + 1;
        }
    }
    proof {
        assert(s@.subrange(n as int, n as int).len() == 0);
    }
    out
}

/// Fills the template's placeholders from the context, in the order of its entries.
pub fn render(template: &str, context: &Vec<(String, Value)>) -> (r: String)
    ensures
        r@ == render_entries(template@, view_entries(context@)),
{
    let mut result = from_str(template);
    let mut i: usize = 0;
    proof {
        reveal_strlit("{{ ");
        reveal_strlit("{{");
    }
    while i < context.len()
        invariant
            i <= context.len(),
            result@ == render_entries(template@, view_entries(context@).subrange(0, i as int)),
        decreases context.len() - i,
    {
        let ghost prev = view_entries(context@).subrange(0, i as int);
        let key = context[i].0.as_str();
        let text = context[i].1.to_text();
        let left = from_str("{{ ");
        let mut spaced = concat(left.as_str(), key);
        spaced.append(" }}");
        proof {
            reveal_strlit("{{ ");
        }
        result = replace(result.as_str(), spaced.as_str(), text.as_str());
        let tleft = from_str("{{");
        let mut tight = concat(tleft.as_str(), key);
        tight.append("}}");
        proof {
            reveal_strlit("{{");
        }
        result = replace(result.as_str(), tight.as_str(), text.as_str());
        proof {
            let cur = view_entries(context@).subrange(0, i + 1);
            assert(cur.drop_last() =~= prev);
        }
        i = i + 1;
    }
    assert(view_entries(context@).subrange(0, context.len() as int) =~= view_entries(context@));
    result
}

} // verus!
