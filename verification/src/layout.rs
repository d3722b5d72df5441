//! The keyboard layout as `mmsg -g -k` reports it.

use vstd::prelude::*;
use crate::status::{LayoutState, name_layout};
use crate::text::{fields, joined, lines, split_fields, split_lines, join_from, views};

verus! {

/// The word that marks the layout name on a line.
pub open spec fn layout_word() -> Seq<char> {
    seq!['k', 'b', '_', 'l', 'a', 'y', 'o', 'u', 't']
}

/// `i` is the first position of `w` in `f`.
pub open spec fn first_word_at(f: Seq<Seq<char>>, w: Seq<char>, i: int) -> bool {
    &&& 0 <= i < f.len()
    &&& f[i] == w
    &&& forall|j: int| 0 <= j < i ==> #[trigger] f[j] != w
}

/// The layout name on one line: the fields after the first `kb_layout`,
/// joined by single spaces, when there is at least one.
pub open spec fn line_layout_name(line: Seq<char>) -> Option<Seq<char>> {
    let f = fields(line);
    if exists|i: int| first_word_at(f, layout_word(), i) {
        let i = choose|i: int| first_word_at(f, layout_word(), i);
        if i + 1 < f.len() {
            Some(joined(f.skip(i + 1), seq![' ']))
        } else {
            None
        }
    } else {
        None
    }
}

/// The layout name of the first line that has one.
pub open spec fn layout_name(ls: Seq<Seq<char>>) -> Option<Seq<char>>
    decreases ls.len(),
{
    if ls.len() == 0 {
        None
    } else {
        match layout_name(ls.drop_last()) {
            Some(n) => Some(n),
            None => line_layout_name(ls.last()),
        }
    }
}

proof fn lemma_layout_name_stays(ls: Seq<Seq<char>>, i: int)
    requires
        0 <= i <= ls.len(),
        layout_name(ls.take(i)) is Some,
    ensures
        layout_name(ls) == layout_name(ls.take(i)),
    decreases ls.len() - i,
{
    if i == ls.len() {
        assert(ls.take(i) =~= ls);
    } else {
        assert(ls.take(i + 1).drop_last() =~= ls.take(i));
        lemma_layout_name_stays(ls, i + 1);
    }
}

fn read_layout_line(line: &str) -> (res: Option<String>)
    ensures
        match line_layout_name(line@) {
            Some(n) => res matches Some(s) && s@ == n,
            None => res is None,
        },
{
    let f = split_fields(line);
    let word = String::from_str("kb_layout");
    proof {
        reveal_strlit("kb_layout");
        assert(word@ =~= layout_word());
    }
    let ghost fv = views(f@);
    let mut i: usize = 0;
    while i < f.len() && f[i] != word
        invariant
            i <= f.len(),
            fv == views(f@),
            word@ == layout_word(),
            forall|j: int| 0 <= j < i ==> #[trigger] fv[j] != layout_word(),
        decreases f.len() - i,
    {
        i = i + 1;
    }
    if i == f.len() {
        proof {
            if exists|k: int| first_word_at(fv, layout_word(), k) {
                let k = choose|k: int| first_word_at(fv, layout_word(), k);
                assert(fv[k] != layout_word());
            }
        }
        return None;
    }
    proof {
        let k = choose|k: int| first_word_at(fv, layout_word(), k);
        assert(first_word_at(fv, layout_word(), i as int));
        if k < i {
            assert(fv[k] != layout_word());
        }
        if i < k {
            assert(fv[i as int] != layout_word());
        }
    }
    if i + 1 >= f.len() {
        return None;
    }
    let name = join_from(&f, i + 1, " ");
    proof {
        reveal_strlit(" ");
        assert(" "@ =~= seq![' ']);
    }
    Some(name)
}

/// Reads the output of `mmsg -g -k`: the layout named on the first line that
/// names one after `kb_layout`, or an error when no line does.
pub fn parse(stdout: &str) -> (res: Result<LayoutState, String>)
    ensures
        match layout_name(lines(stdout@)) {
            Some(n) => res matches Ok(l) && l@ == name_layout(n) && l.wf(),
            None => res matches Err(m) && m@ == "mmsg returned no keyboard layout line"@,
        },
{
    let ls = split_lines(stdout);
    let ghost lv = lines(stdout@);
    let n = ls.len();
    let mut i: usize = 0;
    assert(lv.take(0) =~= Seq::<Seq<char>>::empty());
    while i < n
        invariant
            n == ls.len(),
            views(ls@) == lv,
            lv == lines(stdout@),
            i <= n,
            layout_name(lv.take(i as int)) is None,
        decreases n - i,
    {
        assert(lv.take(i + 1).drop_last() =~= lv.take(i as int));
        assert(lv.take(i + 1).last() == ls@[i as int]@);
        if let Some(name) = read_layout_line(ls[i].as_str()) {
            proof {
                lemma_layout_name_stays(lv, i + 1);
            }
            return Ok(LayoutState::from_name(name.as_str()));
        }
        i = i + 1;
    }
    assert(lv.take(n as int) =~= lv);
    Err(String::from_str("mmsg returned no keyboard layout line"))
}


/// The layout to publish after one poll. `outcome` is `None` when the poll
/// timed out, else what reading `mmsg` gave; only a reading is published, so a
/// failed poll keeps the layout shown before.
pub fn layout_to_publish(outcome: Option<Result<LayoutState, String>>) -> (res: Option<LayoutState>)
    ensures
        match outcome {
            Some(Ok(l)) => res == Some(l),
            _ => res is None,
        },
{
    match outcome {
        Some(Ok(l)) => Some(l),
        _ => None,
    }
}

} // verus!
