//! Joining optional labels into a qualified display label.

use vstd::prelude::*;

use crate::strutil::push_char;

verus! {

/// The separator between a process's origin and its label.
pub const LABEL_SEP: char = '/';

/// One joining step at a time: a present entry is appended, preceded by the
/// separator whenever characters have been gathered already.
pub open spec fn spec_join_from(opts: Seq<Option<Seq<char>>>, sep: char, acc: Seq<char>) -> Seq<
    char,
>
    decreases opts.len(),
{
    if opts.len() == 0 {
        acc
    } else {
        let next = match opts[0] {
            Some(v) => if acc.len() > 0 {
                acc + seq![sep] + v
            } else {
                acc + v
            },
            None => acc,
        };
        spec_join_from(opts.skip(1), sep, next)
    }
}

/// The joined labels, or nothing when no characters were gathered.
pub open spec fn spec_join_labels(opts: Seq<Option<Seq<char>>>, sep: char) -> Option<Seq<char>> {
    let s = spec_join_from(opts, sep, Seq::empty());
    if s.len() > 0 {
        Some(s)
    } else {
        None
    }
}

/// Join the present labels with `sep` between them; an all-absent or all-empty
/// input yields nothing.
pub fn join_labels(opts: Vec<Option<&str>>, sep: char) -> (r: Option<String>)
    ensures
        match r {
            Some(s) => spec_join_labels(opts.deep_view(), sep) == Some(s@),
            None => spec_join_labels(opts.deep_view(), sep) is None,
        },
{
    let mut s = String::new();
    let mut k: usize = 0;
    proof {
        assert(opts.deep_view().skip(0) =~= opts.deep_view());
    }
    while k < opts.len()
        invariant
            k <= opts.len(),
            spec_join_from(opts.deep_view(), sep, Seq::<char>::empty()) == spec_join_from(
                opts.deep_view().skip(k as int),
                sep,
                s@,
            ),
        decreases opts.len() - k,
    {
        let ghost pre = opts.deep_view().skip(k as int);
        let ghost acc0 = s@;
        match opts[k] {
            Some(v) => {
                if !s.as_str().is_empty() {
                    push_char(&mut s, sep);
                }
                s.append(v);
            },
            None => {},
        }
        proof {
            assert(pre[0] == opts.deep_view()[k as int]);
            assert(pre.skip(1) =~= opts.deep_view().skip(k + 1));
            if opts.deep_view()[k as int] is Some && acc0.len() > 0 {
                assert(s@ =~= acc0 + seq![sep] + opts.deep_view()[k as int].unwrap());
            }
        }
        k = k + 1;
    }
    proof {
        assert(opts.deep_view().skip(k as int) =~= Seq::<Option<Seq<char>>>::empty());
    }
    if s.as_str().is_empty() {
        None
    } else {
        Some(s)
    }
}

} // verus!
