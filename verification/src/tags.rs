//! Workspace tags: what the compositor reports of them, and the decisions
//! the bar takes on them.

use vstd::prelude::*;
use crate::text::{decimal_u32, fields, lines, parse_u32, split_fields, split_lines, failure_message, failure_text, parse_failure, views};

verus! {

/// One workspace tag of an output.
#[derive(Clone, Copy, Debug, PartialEq, Eq, Structural)]
pub struct Tag {
    pub number: u32,
    pub active: bool,
    pub urgent: bool,
    pub occupied: bool,
    pub focused_client: bool,
}

/// A tag is shown when it is active, occupied or urgent.
pub open spec fn is_visible(t: Tag) -> bool {
    t.active || t.occupied || t.urgent
}

impl Tag {
    /// Whether the bar shows this tag.
    pub fn visible(&self) -> (res: bool)
        ensures
            res == is_visible(*self),
    {
        self.active || self.occupied || self.urgent
    }
}

/// Whether some tag of `ts` has number `n`.
pub open spec fn has_number(ts: Seq<Tag>, n: u32) -> bool {
    exists|k: int| 0 <= k < ts.len() && (#[trigger] ts[k]).number == n
}

/// The one tag that stands for all tags of `ts` with number `n`: each flag
/// is set when it is set on any of them.
pub open spec fn merged_tag(ts: Seq<Tag>, n: u32) -> Tag {
    Tag {
        number: n,
        active: exists|k: int| 0 <= k < ts.len() && (#[trigger] ts[k]).number == n && ts[k].active,
        urgent: exists|k: int| 0 <= k < ts.len() && (#[trigger] ts[k]).number == n && ts[k].urgent,
        occupied: exists|k: int|
            0 <= k < ts.len() && (#[trigger] ts[k]).number == n && ts[k].occupied,
        focused_client: exists|k: int|
            0 <= k < ts.len() && (#[trigger] ts[k]).number == n && ts[k].focused_client,
    }
}

/// Whether the numbers of `r` strictly increase.
pub open spec fn strictly_ascending(r: Seq<Tag>) -> bool {
    forall|i: int, j: int| 0 <= i < j < r.len() ==> (#[trigger] r[i]).number < (#[trigger] r[j]).number
}

/// `r` is `ts` sorted by number with the tags of each number merged into one.
pub open spec fn is_merge_of(r: Seq<Tag>, ts: Seq<Tag>) -> bool {
    &&& strictly_ascending(r)
    &&& forall|k: int| 0 <= k < ts.len() ==> has_number(r, (#[trigger] ts[k]).number)
    &&& forall|i: int|
        0 <= i < r.len() ==> has_number(ts, (#[trigger] r[i]).number) && r[i] == merged_tag(
            ts,
            r[i].number,
        )
}

/// `x` with each flag of `y` added.
pub open spec fn tag_or(x: Tag, y: Tag) -> Tag {
    Tag {
        number: x.number,
        active: x.active || y.active,
        urgent: x.urgent || y.urgent,
        occupied: x.occupied || y.occupied,
        focused_client: x.focused_client || y.focused_client,
    }
}

proof fn lemma_push_facts(a: Seq<Tag>, t: Tag, n: u32)
    ensures
        has_number(a.push(t), n) == (has_number(a, n) || t.number == n),
        merged_tag(a.push(t), n) == if t.number == n {
            tag_or(merged_tag(a, n), t)
        } else {
            merged_tag(a, n)
        },
{
    let b = a.push(t);
    assert forall|k: int| 0 <= k < a.len() implies #[trigger] b[k] == a[k] by {}
    assert(b[a.len() as int] == t);
    if has_number(a, n) {
        let k = choose|k: int| 0 <= k < a.len() && (#[trigger] a[k]).number == n;
        assert(b[k] == a[k]);
    }
    let m = merged_tag(a, n);
    let mb = merged_tag(b, n);
    if m.active {
        let k = choose|k: int| 0 <= k < a.len() && (#[trigger] a[k]).number == n && a[k].active;
        assert(b[k] == a[k]);
    }
    if m.urgent {
        let k = choose|k: int| 0 <= k < a.len() && (#[trigger] a[k]).number == n && a[k].urgent;
        assert(b[k] == a[k]);
    }
    if m.occupied {
        let k = choose|k: int| 0 <= k < a.len() && (#[trigger] a[k]).number == n && a[k].occupied;
        assert(b[k] == a[k]);
    }
    if m.focused_client {
        let k = choose|k: int|
            0 <= k < a.len() && (#[trigger] a[k]).number == n && a[k].focused_client;
        assert(b[k] == a[k]);
    }
}

/// Sorts `tags` by number and merges the tags of each number into one whose
/// flags are set where any of them is set.
pub fn merge_tags(tags: &Vec<Tag>) -> (res: Vec<Tag>)
    ensures
        is_merge_of(res@, tags@),
{
    let mut r: Vec<Tag> = Vec::new();
    let n = tags.len();
    let mut k: usize = 0;
    assert(tags@.take(0) =~= Seq::<Tag>::empty());
    while k < n
        invariant
            n == tags.len(),
            k <= n,
            is_merge_of(r@, tags@.take(k as int)),
        decreases n - k,
    {
        let t = tags[k];
        let ghost a = tags@.take(k as int);
        let ghost b = a.push(t);
        assert(tags@.take(k + 1) =~= b);
        let mut p: usize = 0;
        while p < r.len() && r[p].number < t.number
            invariant
                p <= r.len(),
                forall|i: int| 0 <= i < p ==> (#[trigger] r@[i]).number < t.number,
            decreases r.len() - p,
        {
            p = p + 1;
        }
        let ghost old_r = r@;
        if p < r.len() && r[p].number == t.number {
            let cur = r[p];
            let joined = Tag {
                number: cur.number,
                active: cur.active || t.active,
                urgent: cur.urgent || t.urgent,
                occupied: cur.occupied || t.occupied,
                focused_client: cur.focused_client || t.focused_client,
            };
            r.set(p, joined);
            proof {
                assert forall|i: int, j: int| 0 <= i < j < r@.len() implies (#[trigger] r@[i]).number
                    < (#[trigger] r@[j]).number by {
                    assert(old_r[i].number < old_r[j].number);
                }
                assert forall|kk: int| 0 <= kk < b.len() implies has_number(
                    r@,
                    (#[trigger] b[kk]).number,
                ) by {
                    if kk < a.len() {
                        assert(b[kk] == a[kk]);
                        let i = choose|i: int|
                            0 <= i < old_r.len() && (#[trigger] old_r[i]).number == a[kk].number;
                        assert(r@[i].number == old_r[i].number);
                    } else {
                        assert(r@[p as int].number == t.number);
                    }
                }
                assert forall|i: int| 0 <= i < r@.len() implies has_number(
                    b,
                    (#[trigger] r@[i]).number,
                ) && r@[i] == merged_tag(b, r@[i].number) by {
                    lemma_push_facts(a, t, r@[i].number);
                    if i != p {
                        assert(r@[i] == old_r[i]);
                        assert(old_r[i].number != t.number);
                    }
                }
            }
        } else {
            r.insert(p, t);
            proof {
                assert(forall|i: int| 0 <= i < p ==> r@[i] == old_r[i]);
                assert(forall|i: int| p < i < r@.len() ==> r@[i] == old_r[i - 1]);
                assert(r@[p as int] == t);
                assert forall|i: int| p <= i < old_r.len() implies t.number < (
                #[trigger] old_r[i]).number by {
                    if i > p {
                        assert(old_r[p as int].number < old_r[i].number);
                    }
                }
                assert forall|i: int, j: int| 0 <= i < j < r@.len() implies (#[trigger] r@[i]).number
                    < (#[trigger] r@[j]).number by {
                    if j < p {
                        assert(old_r[i].number < old_r[j].number);
                    } else if j == p {
                    } else if i < p {
                        assert(old_r[j - 1].number > t.number);
                    } else if i == p {
                    } else {
                        assert(old_r[i - 1].number < old_r[j - 1].number);
                    }
                }
                assert forall|kk: int| 0 <= kk < b.len() implies has_number(
                    r@,
                    (#[trigger] b[kk]).number,
                ) by {
                    if kk < a.len() {
                        assert(b[kk] == a[kk]);
                        let i = choose|i: int|
                            0 <= i < old_r.len() && (#[trigger] old_r[i]).number == a[kk].number;
                        if i < p {
                            assert(r@[i] == old_r[i]);
                        } else {
                            assert(r@[i + 1] == old_r[i]);
                        }
                    } else {
                        assert(r@[p as int].number == t.number);
                    }
                }
                assert(!has_number(a, t.number)) by {
                    if has_number(a, t.number) {
                        let kk = choose|kk: int|
                            0 <= kk < a.len() && (#[trigger] a[kk]).number == t.number;
                        let i = choose|i: int|
                            0 <= i < old_r.len() && (#[trigger] old_r[i]).number == a[kk].number;
                        if i >= p {
                            assert(t.number < old_r[i].number);
                        }
                    }
                }
                assert forall|i: int| 0 <= i < r@.len() implies has_number(
                    b,
                    (#[trigger] r@[i]).number,
                ) && r@[i] == merged_tag(b, r@[i].number) by {
                    lemma_push_facts(a, t, r@[i].number);
                    if i < p {
                        assert(r@[i] == old_r[i]);
                        assert(old_r[i].number != t.number);
                    } else if i > p {
                        assert(r@[i] == old_r[i - 1]);
                        assert(old_r[i - 1].number != t.number);
                    } else {
                        let m = merged_tag(a, t.number);
                        assert(!m.active && !m.urgent && !m.occupied && !m.focused_client);
                    }
                }
            }
        }
        k = k + 1;
    }
    assert(tags@.take(n as int) =~= tags@);
    r
}


proof fn lemma_merge_same_number_at(r1: Seq<Tag>, r2: Seq<Tag>, ts: Seq<Tag>, i: int)
    requires
        is_merge_of(r1, ts),
        is_merge_of(r2, ts),
        0 <= i < r1.len(),
        0 <= i < r2.len(),
        forall|j: int| 0 <= j < i ==> (#[trigger] r1[j]).number == r2[j].number,
    ensures
        r1[i].number == r2[i].number,
{
    let n1 = r1[i].number;
    let n2 = r2[i].number;
    let k1 = choose|k: int| 0 <= k < ts.len() && (#[trigger] ts[k]).number == n1;
    let j1 = choose|j: int| 0 <= j < r2.len() && (#[trigger] r2[j]).number == ts[k1].number;
    let k2 = choose|k: int| 0 <= k < ts.len() && (#[trigger] ts[k]).number == n2;
    let j2 = choose|j: int| 0 <= j < r1.len() && (#[trigger] r1[j]).number == ts[k2].number;
    if j1 < i {
        assert(r1[j1].number < r1[i].number);
    }
    if j2 < i {
        assert(r2[j2].number < r2[i].number);
    }
    if j1 > i {
        assert(r2[i].number < r2[j1].number);
    }
    if j2 > i {
        assert(r1[i].number < r1[j2].number);
    }
}

proof fn lemma_merge_prefix(r1: Seq<Tag>, r2: Seq<Tag>, ts: Seq<Tag>, i: int)
    requires
        is_merge_of(r1, ts),
        is_merge_of(r2, ts),
        0 <= i <= r1.len(),
        i <= r2.len(),
    ensures
        forall|j: int| 0 <= j < i ==> (#[trigger] r1[j]).number == r2[j].number,
    decreases i,
{
    if i > 0 {
        lemma_merge_prefix(r1, r2, ts, i - 1);
        lemma_merge_same_number_at(r1, r2, ts, i - 1);
    }
}

/// The merge of a list of tags is unique: two sequences that both are the
/// sorted, merged form of `ts` are equal.
pub proof fn lemma_merge_unique(r1: Seq<Tag>, r2: Seq<Tag>, ts: Seq<Tag>)
    requires
        is_merge_of(r1, ts),
        is_merge_of(r2, ts),
    ensures
        r1 == r2,
{
    let m = if r1.len() < r2.len() {
        r1.len() as int
    } else {
        r2.len() as int
    };
    lemma_merge_prefix(r1, r2, ts, m);
    if r1.len() < r2.len() {
        let n = r2[m].number;
        let k = choose|k: int| 0 <= k < ts.len() && (#[trigger] ts[k]).number == n;
        let j = choose|j: int| 0 <= j < r1.len() && (#[trigger] r1[j]).number == ts[k].number;
        assert(r2[j].number < r2[m].number);
    } else if r2.len() < r1.len() {
        let n = r1[m].number;
        let k = choose|k: int| 0 <= k < ts.len() && (#[trigger] ts[k]).number == n;
        let j = choose|j: int| 0 <= j < r2.len() && (#[trigger] r2[j]).number == ts[k].number;
        assert(r1[j].number < r1[m].number);
    }
    assert forall|j: int| 0 <= j < r1.len() implies r1[j] == r2[j] by {
        assert(r1[j].number == r2[j].number);
    }
    assert(r1 =~= r2);
}

/// The merge of a list of tags depends only on which tags it holds: not on
/// their order, nor on how often each occurs.
pub proof fn lemma_merge_depends_on_set(r: Seq<Tag>, ts1: Seq<Tag>, ts2: Seq<Tag>)
    requires
        is_merge_of(r, ts1),
        ts1.to_set() == ts2.to_set(),
    ensures
        is_merge_of(r, ts2),
{
    assert forall|t: Tag| ts1.contains(t) <==> ts2.contains(t) by {
        assert(ts1.to_set().contains(t) == ts1.contains(t));
        assert(ts2.to_set().contains(t) == ts2.contains(t));
    }
    assert forall|k: int| 0 <= k < ts2.len() implies has_number(r, (#[trigger] ts2[k]).number) by {
        assert(ts2.contains(ts2[k]));
        let k1 = choose|k1: int| 0 <= k1 < ts1.len() && ts1[k1] == ts2[k];
        assert(has_number(r, ts1[k1].number));
    }
    assert forall|i: int| 0 <= i < r.len() implies has_number(ts2, (#[trigger] r[i]).number)
        && r[i] == merged_tag(ts2, r[i].number) by {
        let n = r[i].number;
        let k1 = choose|k: int| 0 <= k < ts1.len() && (#[trigger] ts1[k]).number == n;
        assert(ts1.contains(ts1[k1]));
        let k2 = choose|k: int| 0 <= k < ts2.len() && ts2[k] == ts1[k1];
        assert(ts2[k2].number == n);
        let m1 = merged_tag(ts1, n);
        let m2 = merged_tag(ts2, n);
        assert forall|k: int| 0 <= k < ts1.len() implies exists|k2: int|
            0 <= k2 < ts2.len() && ts2[k2] == #[trigger] ts1[k] by {
            assert(ts1.contains(ts1[k]));
        }
        assert forall|k: int| 0 <= k < ts2.len() implies exists|k1: int|
            0 <= k1 < ts1.len() && ts1[k1] == #[trigger] ts2[k] by {
            assert(ts2.contains(ts2[k]));
        }
        if m1.active {
            let k = choose|k: int| 0 <= k < ts1.len() && (#[trigger] ts1[k]).number == n && ts1[k].active;
            let kk = choose|kk: int| 0 <= kk < ts2.len() && ts2[kk] == ts1[k];
            assert(ts2[kk].number == n && ts2[kk].active);
        }
        if m2.active {
            let k = choose|k: int| 0 <= k < ts2.len() && (#[trigger] ts2[k]).number == n && ts2[k].active;
            let kk = choose|kk: int| 0 <= kk < ts1.len() && ts1[kk] == ts2[k];
            assert(ts1[kk].number == n && ts1[kk].active);
        }
        if m1.urgent {
            let k = choose|k: int| 0 <= k < ts1.len() && (#[trigger] ts1[k]).number == n && ts1[k].urgent;
            let kk = choose|kk: int| 0 <= kk < ts2.len() && ts2[kk] == ts1[k];
            assert(ts2[kk].number == n && ts2[kk].urgent);
        }
        if m2.urgent {
            let k = choose|k: int| 0 <= k < ts2.len() && (#[trigger] ts2[k]).number == n && ts2[k].urgent;
            let kk = choose|kk: int| 0 <= kk < ts1.len() && ts1[kk] == ts2[k];
            assert(ts1[kk].number == n && ts1[kk].urgent);
        }
        if m1.occupied {
            let k = choose|k: int| 0 <= k < ts1.len() && (#[trigger] ts1[k]).number == n && ts1[k].occupied;
            let kk = choose|kk: int| 0 <= kk < ts2.len() && ts2[kk] == ts1[k];
            assert(ts2[kk].number == n && ts2[kk].occupied);
        }
        if m2.occupied {
            let k = choose|k: int| 0 <= k < ts2.len() && (#[trigger] ts2[k]).number == n && ts2[k].occupied;
            let kk = choose|kk: int| 0 <= kk < ts1.len() && ts1[kk] == ts2[k];
            assert(ts1[kk].number == n && ts1[kk].occupied);
        }
        if m1.focused_client {
            let k = choose|k: int|
                0 <= k < ts1.len() && (#[trigger] ts1[k]).number == n && ts1[k].focused_client;
            let kk = choose|kk: int| 0 <= kk < ts2.len() && ts2[kk] == ts1[k];
            assert(ts2[kk].number == n && ts2[kk].focused_client);
        }
        if m2.focused_client {
            let k = choose|k: int|
                0 <= k < ts2.len() && (#[trigger] ts2[k]).number == n && ts2[k].focused_client;
            let kk = choose|kk: int| 0 <= kk < ts1.len() && ts1[kk] == ts2[k];
            assert(ts1[kk].number == n && ts1[kk].focused_client);
        }
    }
}


/// The word that marks a tag line.
pub open spec fn tag_word() -> Seq<char> {
    seq!['t', 'a', 'g']
}

/// The field `f[idx]` of `line` read as a `u32`, or the error reported for it:
/// `missing <name> in `<line>`` when there is no such field, and
/// `invalid <name> in `<line>`: <reason>` when it does not parse.
pub open spec fn field_u32(f: Seq<Seq<char>>, idx: int, line: Seq<char>, name: Seq<char>) -> Result<
    u32,
    Seq<char>,
> {
    if idx >= f.len() {
        Err("missing "@ + name + " in `"@ + line + "`"@)
    } else {
        match decimal_u32(f[idx]) {
            Some(v) => Ok(v),
            None => Err(
                "invalid "@ + name + " in `"@ + line + "`: "@ + failure_text(parse_failure(f[idx])),
            ),
        }
    }
}

/// The tag that four numbers of a tag line describe: its number, its state
/// (1 active, 2 urgent), its client count and whether a client has focus.
pub open spec fn tag_of_numbers(number: u32, state: u32, clients: u32, focused: u32) -> Tag {
    Tag {
        number,
        active: state == 1,
        urgent: state == 2,
        occupied: clients > 0,
        focused_client: focused != 0,
    }
}

/// What one line of `mmsg -g -t` gives: nothing when it is not a tag line
/// (neither its first nor its second field is `tag`), else the tag read from
/// the four fields after `tag`, or the error for the first of them that is
/// missing or not a number.
pub open spec fn line_tag(line: Seq<char>) -> Option<Result<Tag, Seq<char>>> {
    let f = fields(line);
    let start: int = if f.len() > 0 && f[0] == tag_word() {
        1
    } else if f.len() >= 2 && f[1] == tag_word() {
        2
    } else {
        0
    };
    if start == 0 {
        None
    } else {
        match field_u32(f, start, line, "tag number"@) {
            Err(e) => Some(Err(e)),
            Ok(number) => match field_u32(f, start + 1, line, "tag state"@) {
                Err(e) => Some(Err(e)),
                Ok(state) => match field_u32(f, start + 2, line, "client count"@) {
                    Err(e) => Some(Err(e)),
                    Ok(clients) => match field_u32(f, start + 3, line, "focused client"@) {
                        Err(e) => Some(Err(e)),
                        Ok(focused) => Some(Ok(tag_of_numbers(number, state, clients, focused))),
                    },
                },
            },
        }
    }
}

/// The tags of a list of lines in order, or the error of the first line that
/// is a tag line but cannot be read.
pub open spec fn tag_lines(ls: Seq<Seq<char>>) -> Result<Seq<Tag>, Seq<char>>
    decreases ls.len(),
{
    if ls.len() == 0 {
        Ok(Seq::<Tag>::empty())
    } else {
        match tag_lines(ls.drop_last()) {
            Err(e) => Err(e),
            Ok(ts) => match line_tag(ls.last()) {
                None => Ok(ts),
                Some(Ok(t)) => Ok(ts.push(t)),
                Some(Err(e)) => Err(e),
            },
        }
    }
}

fn field_value(f: &Vec<String>, idx: usize, line: &str, name: &str) -> (res: Result<u32, String>)
    ensures
        match field_u32(views(f@), idx as int, line@, name@) {
            Ok(v) => res == Ok::<u32, String>(v),
            Err(e) => res matches Err(m) && m@ == e,
        },
{
    if idx >= f.len() {
        let mut m = String::from_str("missing ");
        m.append(name);
        m.append(" in `");
        m.append(line);
        m.append("`");
        return Err(m);
    }
    match parse_u32(f[idx].as_str()) {
        Ok(v) => Ok(v),
        Err(kind) => {
            let reason = failure_message(kind);
            let mut m = String::from_str("invalid ");
            m.append(name);
            m.append(" in `");
            m.append(line);
            m.append("`: ");
            m.append(reason.as_str());
            Err(m)
        },
    }
}

fn read_tag_line(line: &str) -> (res: Option<Result<Tag, String>>)
    ensures
        match line_tag(line@) {
            None => res is None,
            Some(Ok(t)) => res == Some(Ok::<Tag, String>(t)),
            Some(Err(e)) => res matches Some(Err(m)) && m@ == e,
        },
{
    let f = split_fields(line);
    let word = String::from_str("tag");
    proof {
        reveal_strlit("tag");
        assert(word@ =~= tag_word());
    }
    let start: usize = if f.len() > 0 && f[0] == word {
        1
    } else if f.len() >= 2 && f[1] == word {
        2
    } else {
        0
    };
    if start == 0 {
        return None;
    }
    let number = match field_value(&f, start, line, "tag number") {
        Ok(v) => v,
        Err(e) => return Some(Err(e)),
    };
    let state = match field_value(&f, start + 1, line, "tag state") {
        Ok(v) => v,
        Err(e) => return Some(Err(e)),
    };
    let clients = match field_value(&f, start + 2, line, "client count") {
        Ok(v) => v,
        Err(e) => return Some(Err(e)),
    };
    let focused = match field_value(&f, start + 3, line, "focused client") {
        Ok(v) => v,
        Err(e) => return Some(Err(e)),
    };
    Some(
        Ok(
            Tag {
                number,
                active: state == 1,
                urgent: state == 2,
                occupied: clients > 0,
                focused_client: focused != 0,
            },
        ),
    )
}

/// Reads the output of `mmsg -g -t`: the tags of its tag lines, sorted by
/// number, with the lines of one number merged. Fails with the error of the
/// first tag line that cannot be read, or when there is no tag line.
pub fn parse_tags(stdout: &str) -> (res: Result<Vec<Tag>, String>)
    ensures
        match tag_lines(lines(stdout@)) {
            Err(e) => res matches Err(m) && m@ == e,
            Ok(ts) => if ts.len() == 0 {
                res matches Err(m) && m@ == "mmsg returned no tag lines"@
            } else {
                res matches Ok(r) && is_merge_of(r@, ts) && r@.len() > 0
            },
        },
{
    let ls = split_lines(stdout);
    let ghost lv = lines(stdout@);
    let mut tags: Vec<Tag> = Vec::new();
    let n = ls.len();
    let mut i: usize = 0;
    assert(lv.take(0) =~= Seq::<Seq<char>>::empty());
    while i < n
        invariant
            n == ls.len(),
            views(ls@) == lv,
            lv == lines(stdout@),
            i <= n,
            tag_lines(lv.take(i as int)) == Ok::<Seq<Tag>, Seq<char>>(tags@),
        decreases n - i,
    {
        assert(lv.take(i + 1).drop_last() =~= lv.take(i as int));
        assert(lv.take(i + 1).last() == ls@[i as int]@);
        match read_tag_line(ls[i].as_str()) {
            None => {},
            Some(Ok(t)) => {
                tags.push(t);
            },
            Some(Err(e)) => {
                proof {
                    assert(tag_lines(lv.take(i + 1)) == Err::<Seq<Tag>, Seq<char>>(e@));
                    lemma_tag_lines_err_stays(lv, i as int + 1);
                }
                return Err(e);
            },
        }
        i = i + 1;
    }
    assert(lv.take(n as int) =~= lv);
    if tags.len() == 0 {
        return Err(String::from_str("mmsg returned no tag lines"));
    }
    let merged = merge_tags(&tags);
    proof {
        let k = 0int;
        assert(has_number(merged@, tags@[k].number));
    }
    Ok(merged)
}

proof fn lemma_tag_lines_err_stays(ls: Seq<Seq<char>>, i: int)
    requires
        0 <= i <= ls.len(),
        tag_lines(ls.take(i)) is Err,
    ensures
        tag_lines(ls) == tag_lines(ls.take(i)),
    decreases ls.len() - i,
{
    if i == ls.len() {
        assert(ls.take(i) =~= ls);
    } else {
        assert(ls.take(i + 1).drop_last() =~= ls.take(i));
        lemma_tag_lines_err_stays(ls, i + 1);
    }
}


/// `is_visible` as a predicate value.
pub open spec fn visible_pred() -> spec_fn(Tag) -> bool {
    |t: Tag| is_visible(t)
}

/// The tags that the bar shows, in order.
pub open spec fn visible(ts: Seq<Tag>) -> Seq<Tag> {
    ts.filter(visible_pred())
}

/// The tags that the bar shows, in the order given.
pub fn visible_tags(tags: &Vec<Tag>) -> (res: Vec<Tag>)
    ensures
        res@ == visible(tags@),
{
    let mut res: Vec<Tag> = Vec::new();
    let n = tags.len();
    let mut i: usize = 0;
    assert(tags@.take(0) =~= Seq::<Tag>::empty());
    proof {
        reveal_with_fuel(Seq::filter, 1);
    }
    while i < n
        invariant
            n == tags.len(),
            i <= n,
            res@ == tags@.take(i as int).filter(visible_pred()),
        decreases n - i,
    {
        let t = tags[i];
        proof {
            assert(tags@.take(i + 1) =~= tags@.take(i as int).push(t));
            tags@.take(i as int).lemma_filter_push(t, visible_pred());
        }
        if t.visible() {
            res.push(t);
        }
        i = i + 1;
    }
    assert(tags@.take(n as int) =~= tags@);
    res
}

/// `a` is the index of the first active tag of `v`.
pub open spec fn first_active_at(v: Seq<Tag>, a: int) -> bool {
    &&& 0 <= a < v.len()
    &&& v[a].active
    &&& forall|j: int| 0 <= j < a ==> !(#[trigger] v[j]).active
}

/// The index of the first active tag of `v`, if there is one.
pub open spec fn first_active(v: Seq<Tag>) -> Option<int> {
    if exists|a: int| first_active_at(v, a) {
        Some(choose|a: int| first_active_at(v, a))
    } else {
        None
    }
}

/// The tag that one scroll step moves to: among the shown tags, the one
/// before (`previous`) or after the first active one. There is none when
/// fewer than two tags are shown, none of them is active, or the active one
/// is the first (scrolling back) or the last (scrolling on).
pub open spec fn scroll_step(ts: Seq<Tag>, previous: bool) -> Option<u32> {
    let v = visible(ts);
    if v.len() < 2 {
        None
    } else {
        match first_active(v) {
            None => None,
            Some(a) => if previous {
                if a >= 1 {
                    Some(v[a - 1].number)
                } else {
                    None
                }
            } else {
                if a + 1 < v.len() {
                    Some(v[a + 1].number)
                } else {
                    None
                }
            },
        }
    }
}

proof fn lemma_first_active_unique(v: Seq<Tag>, a: int)
    requires
        first_active_at(v, a),
    ensures
        first_active(v) == Some(a),
{
    let b = choose|b: int| first_active_at(v, b);
    assert(first_active_at(v, b));
    if b < a {
        assert(!v[b].active);
    }
    if a < b {
        assert(!v[a].active);
    }
}

/// The number of the tag that one scroll step moves to (see `scroll_step`).
pub fn scroll_target(tags: &Vec<Tag>, previous: bool) -> (res: Option<u32>)
    ensures
        res == scroll_step(tags@, previous),
{
    let v = visible_tags(tags);
    if v.len() < 2 {
        return None;
    }
    let mut a: usize = 0;
    while a < v.len() && !v[a].active
        invariant
            a <= v.len(),
            forall|j: int| 0 <= j < a ==> !(#[trigger] v@[j]).active,
        decreases v.len() - a,
    {
        a = a + 1;
    }
    if a == v.len() {
        proof {
            if exists|b: int| first_active_at(v@, b) {
                let b = choose|b: int| first_active_at(v@, b);
                assert(!v@[b].active);
            }
        }
        return None;
    }
    proof {
        lemma_first_active_unique(v@, a as int);
    }
    if previous {
        if a == 0 {
            None
        } else {
            Some(v[a - 1].number)
        }
    } else if a + 1 < v.len() {
        Some(v[a + 1].number)
    } else {
        None
    }
}

/// Whether two tag lists are the same, tag for tag.
pub fn same_tags(a: &Vec<Tag>, b: &Vec<Tag>) -> (res: bool)
    ensures
        res == (a@ == b@),
{
    if a.len() != b.len() {
        return false;
    }
    let mut i: usize = 0;
    while i < a.len()
        invariant
            a.len() == b.len(),
            i <= a.len(),
            forall|j: int| 0 <= j < i ==> a@[j] == b@[j],
        decreases a.len() - i,
    {
        if a[i] != b[i] {
            return false;
        }
        i = i + 1;
    }
    assert(a@ =~= b@);
    true
}


/// The predicate "has number `n`".
pub open spec fn number_is(n: u32) -> spec_fn(Tag) -> bool {
    |t: Tag| t.number == n
}

/// `r` is `ts` sorted by number, the tags of one number keeping their order
/// (a stable sort).
pub open spec fn is_stable_sort_of(r: Seq<Tag>, ts: Seq<Tag>) -> bool {
    &&& forall|i: int, j: int| 0 <= i < j < r.len() ==> (#[trigger] r[i]).number <= (#[trigger] r[j]).number
    &&& forall|n: u32| #[trigger] r.filter(number_is(n)) == ts.filter(number_is(n))
}

proof fn lemma_filter_none(s: Seq<Tag>, n: u32)
    requires
        forall|i: int| 0 <= i < s.len() ==> (#[trigger] s[i]).number != n,
    ensures
        s.filter(number_is(n)) == Seq::<Tag>::empty(),
{
    assert forall|i: int| 0 <= i < s.len() implies !number_is(n)(#[trigger] s[i]) by {}
    assert(s.all(|x: Tag| !number_is(n)(x)));
    s.lemma_all_neg_filter_empty(number_is(n));
}

proof fn lemma_single_filter(t: Tag, n: u32)
    ensures
        seq![t].filter(number_is(n)) == if t.number == n {
            seq![t]
        } else {
            Seq::<Tag>::empty()
        },
{
    Seq::<Tag>::empty().lemma_filter_push(t, number_is(n));
    assert(Seq::<Tag>::empty().push(t) =~= seq![t]);
    reveal_with_fuel(Seq::filter, 1);
}

/// Sorts `tags` by number, keeping the order of the tags of one number.
pub fn sort_tags(tags: &Vec<Tag>) -> (res: Vec<Tag>)
    ensures
        is_stable_sort_of(res@, tags@),
{
    let mut r: Vec<Tag> = Vec::new();
    let n = tags.len();
    let mut k: usize = 0;
    assert(tags@.take(0) =~= Seq::<Tag>::empty());
    while k < n
        invariant
            n == tags.len(),
            k <= n,
            is_stable_sort_of(r@, tags@.take(k as int)),
        decreases n - k,
    {
        let t = tags[k];
        let ghost a = tags@.take(k as int);
        assert(tags@.take(k + 1) =~= a.push(t));
        let mut p: usize = 0;
        while p < r.len() && r[p].number <= t.number
            invariant
                p <= r.len(),
                forall|i: int| 0 <= i < p ==> (#[trigger] r@[i]).number <= t.number,
            decreases r.len() - p,
        {
            p = p + 1;
        }
        let ghost old_r = r@;
        r.insert(p, t);
        proof {
            assert forall|i: int| p <= i < old_r.len() implies t.number < (
            #[trigger] old_r[i]).number by {
                if i > p {
                    assert(old_r[p as int].number <= old_r[i].number);
                }
            }
            assert(forall|i: int| 0 <= i < p ==> r@[i] == old_r[i]);
            assert(forall|i: int| p < i < r@.len() ==> r@[i] == old_r[i - 1]);
            assert forall|i: int, j: int| 0 <= i < j < r@.len() implies (#[trigger] r@[i]).number
                <= (#[trigger] r@[j]).number by {
                if j < p {
                    assert(old_r[i].number <= old_r[j].number);
                } else if j == p {
                } else if i < p {
                    assert(old_r[j - 1].number > t.number);
                } else if i == p {
                } else {
                    assert(old_r[i - 1].number <= old_r[j - 1].number);
                }
            }
            let front = old_r.subrange(0, p as int);
            let back = old_r.subrange(p as int, old_r.len() as int);
            assert(old_r =~= front + back);
            assert(r@ =~= front + seq![t] + back);
            assert forall|m: u32| #[trigger] r@.filter(number_is(m)) == a.push(t).filter(
                number_is(m),
            ) by {
                Seq::filter_distributes_over_add(front, back, number_is(m));
                Seq::filter_distributes_over_add(front + seq![t], back, number_is(m));
                Seq::filter_distributes_over_add(front, seq![t], number_is(m));
                lemma_single_filter(t, m);
                a.lemma_filter_push(t, number_is(m));
                assert(old_r.filter(number_is(m)) == a.filter(number_is(m)));
                if t.number == m {
                    assert forall|i: int| 0 <= i < back.len() implies (#[trigger] back[i]).number
                        != m by {
                        assert(back[i] == old_r[p + i]);
                    }
                    lemma_filter_none(back, m);
                    assert(front.filter(number_is(m)) + back.filter(number_is(m)) =~= front.filter(
                        number_is(m),
                    ));
                    assert(r@.filter(number_is(m)) =~= front.filter(number_is(m)).push(t));
                } else {
                    assert(front.filter(number_is(m)) + Seq::<Tag>::empty() =~= front.filter(
                        number_is(m),
                    ));
                }
            }
        }
        k = k + 1;
    }
    assert(tags@.take(n as int) =~= tags@);
    r
}

/// Whether some tag of `ts` is shown.
pub open spec fn any_visible(ts: Seq<Tag>) -> bool {
    exists|i: int| 0 <= i < ts.len() && is_visible(#[trigger] ts[i])
}

/// What a frame of tag events for one output gives to the bar: the tags
/// sorted by number when at least one of them is shown, else nothing.
pub fn frame_tags(tags: &Vec<Tag>) -> (res: Option<Vec<Tag>>)
    ensures
        match res {
            Some(r) => any_visible(tags@) && is_stable_sort_of(r@, tags@),
            None => !any_visible(tags@),
        },
{
    let sorted = sort_tags(tags);
    let mut i: usize = 0;
    while i < tags.len()
        invariant
            i <= tags.len(),
            forall|j: int| 0 <= j < i ==> !is_visible(#[trigger] tags@[j]),
            is_stable_sort_of(sorted@, tags@),
        decreases tags.len() - i,
    {
        if tags[i].visible() {
            return Some(sorted);
        }
        i = i + 1;
    }
    None
}

/// The tag that one tag event of the compositor's IPC describes: `index` is
/// the tag's index from 0, `state` the tag's state when it is a known one,
/// `clients` the count of its clients, `focused` whether one has focus
/// (non-zero).
pub open spec fn event_tag(index: u32, state: Option<TagState>, clients: u32, focused: u32) -> Tag {
    Tag {
        number: (index + 1) as u32,
        active: state == Some(TagState::Active),
        urgent: state == Some(TagState::Urgent),
        occupied: clients > 0,
        focused_client: focused != 0,
    }
}

/// The tag that one tag event of the compositor's IPC describes (see
/// `event_tag`).
pub fn tag_from_event(index: u32, state: Option<TagState>, clients: u32, focused: u32) -> (res: Tag)
    requires
        index < u32::MAX,
    ensures
        res == event_tag(index, state, clients, focused),
{
    Tag {
        number: index + 1,
        active: match state {
            Some(TagState::Active) => true,
            _ => false,
        },
        urgent: match state {
            Some(TagState::Urgent) => true,
            _ => false,
        },
        occupied: clients > 0,
        focused_client: focused != 0,
    }
}

/// The state of a tag as the compositor's IPC reports it.
#[derive(Clone, Copy, Debug, PartialEq, Eq, Structural)]
pub enum TagState {
    Idle,
    Active,
    Urgent,
}


/// Vacant tags are hidden: the shown tags are exactly the tags that are
/// active, occupied or urgent, in their order.
pub proof fn lemma_shown_tags(ts: Seq<Tag>)
    ensures
        forall|i: int| 0 <= i < visible(ts).len() ==> is_visible(#[trigger] visible(ts)[i]),
        forall|i: int| 0 <= i < visible(ts).len() ==> ts.contains(#[trigger] visible(ts)[i]),
        forall|i: int| 0 <= i < ts.len() && is_visible(#[trigger] ts[i]) ==> visible(ts).contains(ts[i]),
{
    assert forall|i: int| 0 <= i < visible(ts).len() implies is_visible(#[trigger] visible(ts)[i])
        && ts.contains(visible(ts)[i]) by {
        ts.lemma_filter_pred(visible_pred(), i);
        assert(visible(ts).contains(visible(ts)[i]));
        ts.lemma_filter_contains_rev(visible_pred(), visible(ts)[i]);
    }
    assert forall|i: int| 0 <= i < ts.len() && is_visible(#[trigger] ts[i]) implies visible(
        ts,
    ).contains(ts[i]) by {
        ts.lemma_filter_contains(visible_pred(), i);
    }
}

proof fn lemma_visible_ascending(ts: Seq<Tag>)
    requires
        strictly_ascending(ts),
    ensures
        strictly_ascending(visible(ts)),
    decreases ts.len(),
{
    if ts.len() > 0 {
        let t = ts.drop_last();
        assert(strictly_ascending(t)) by {
            assert forall|i: int, j: int| 0 <= i < j < t.len() implies (#[trigger] t[i]).number
                < (#[trigger] t[j]).number by {
                assert(ts[i].number < ts[j].number);
            }
        }
        lemma_visible_ascending(t);
        assert(t.push(ts.last()) =~= ts);
        t.lemma_filter_push(ts.last(), visible_pred());
        let vt = visible(t);
        assert forall|i: int| 0 <= i < vt.len() implies (#[trigger] vt[i]).number < ts.last().number by {
            assert(vt.contains(vt[i]));
            t.lemma_filter_contains_rev(visible_pred(), vt[i]);
            let k = choose|k: int| 0 <= k < t.len() && t[k] == vt[i];
            assert(ts[k].number < ts[ts.len() - 1].number);
        }
        let v = visible(ts);
        assert forall|i: int, j: int| 0 <= i < j < v.len() implies (#[trigger] v[i]).number
            < (#[trigger] v[j]).number by {
            if j < vt.len() {
                assert(v[i] == vt[i] && v[j] == vt[j]);
            } else {
                assert(v[i] == vt[i]);
            }
        }
    }
}

/// A scroll step lands on a shown tag of the list: the shown tag just before
/// (scrolling back) or just after (scrolling on) the first active shown tag,
/// never on that tag itself. Scrolling back lands on a tag that is not
/// active. When the numbers of the tags strictly increase, as `parse_tags`
/// delivers them, the target's number differs from the active tag's: it is
/// smaller when scrolling back and larger when scrolling on.
pub proof fn lemma_scroll_lands_on_shown_tag(ts: Seq<Tag>, previous: bool)
    ensures
        scroll_step(ts, previous) matches Some(n) ==> exists|a: int, k: int|
            #![trigger visible(ts)[a], visible(ts)[k]]
            {
                &&& first_active_at(visible(ts), a)
                &&& k != a
                &&& 0 <= k < visible(ts).len()
                &&& (if previous {
                    k == a - 1
                } else {
                    k == a + 1
                })
                &&& visible(ts)[k].number == n
                &&& is_visible(visible(ts)[k])
                &&& ts.contains(visible(ts)[k])
                &&& (previous ==> !visible(ts)[k].active)
                &&& (strictly_ascending(ts) ==> if previous {
                    n < visible(ts)[a].number
                } else {
                    n > visible(ts)[a].number
                })
            },
        scroll_step(ts, previous) matches Some(n) ==> exists|i: int|
            0 <= i < ts.len() && (#[trigger] ts[i]).number == n && is_visible(ts[i]),
{
    if let Some(n) = scroll_step(ts, previous) {
        let v = visible(ts);
        let a = first_active(v)->0;
        assert(first_active_at(v, a));
        let k = if previous {
            a - 1
        } else {
            a + 1
        };
        assert(v[k].number == n);
        lemma_shown_tags(ts);
        assert(ts.contains(v[k]));
        assert(is_visible(v[k]));
        if previous {
            assert(!v[k].active);
        }
        if strictly_ascending(ts) {
            lemma_visible_ascending(ts);
            if previous {
                assert(v[k].number < v[a].number);
            } else {
                assert(v[a].number < v[k].number);
            }
        }
        let i = choose|i: int| 0 <= i < ts.len() && ts[i] == v[k];
        assert(ts[i].number == n && is_visible(ts[i]));
    }
}


proof fn lemma_filter_has_number(r: Seq<Tag>, n: u32)
    requires
        r.filter(number_is(n)).len() > 0,
    ensures
        exists|i: int| 0 <= i < r.len() && (#[trigger] r[i]).number == n,
{
    r.lemma_filter_pred(number_is(n), 0);
    assert(r.filter(number_is(n)).contains(r.filter(number_is(n))[0]));
    r.lemma_filter_contains_rev(number_is(n), r.filter(number_is(n))[0]);
}

/// A stable sort is unique: two sequences that both are `ts` sorted stably
/// by number are equal.
pub proof fn lemma_stable_sort_unique(r1: Seq<Tag>, r2: Seq<Tag>, ts: Seq<Tag>)
    requires
        is_stable_sort_of(r1, ts),
        is_stable_sort_of(r2, ts),
    ensures
        r1 == r2,
    decreases r1.len() + r2.len(),
{
    if r1.len() == 0 && r2.len() == 0 {
        assert(r1 =~= r2);
    } else if r1.len() == 0 || r2.len() == 0 {
        let (x, y) = if r1.len() == 0 {
            (r2, r1)
        } else {
            (r1, r2)
        };
        let n = x.last().number;
        x.drop_last().lemma_filter_push(x.last(), number_is(n));
        assert(x.drop_last().push(x.last()) =~= x);
        assert(y.filter(number_is(n)) == x.filter(number_is(n)));
        reveal_with_fuel(Seq::filter, 1);
        assert(y.filter(number_is(n)).len() == 0);
    } else {
        let m1 = r1.last().number;
        let m2 = r2.last().number;
        assert(r1.drop_last().push(r1.last()) =~= r1);
        assert(r2.drop_last().push(r2.last()) =~= r2);
        r1.drop_last().lemma_filter_push(r1.last(), number_is(m1));
        r2.drop_last().lemma_filter_push(r2.last(), number_is(m2));
        assert(r1.filter(number_is(m1)) == ts.filter(number_is(m1)));
        assert(r2.filter(number_is(m1)) == ts.filter(number_is(m1)));
        assert(r1.filter(number_is(m2)) == ts.filter(number_is(m2)));
        assert(r2.filter(number_is(m2)) == ts.filter(number_is(m2)));
        lemma_filter_has_number(r2, m1);
        lemma_filter_has_number(r1, m2);
        let i2 = choose|i: int| 0 <= i < r2.len() && (#[trigger] r2[i]).number == m1;
        let i1 = choose|i: int| 0 <= i < r1.len() && (#[trigger] r1[i]).number == m2;
        if i2 < r2.len() - 1 {
            assert(r2[i2].number <= r2[r2.len() - 1].number);
        }
        if i1 < r1.len() - 1 {
            assert(r1[i1].number <= r1[r1.len() - 1].number);
        }
        assert(m1 == m2);
        assert(r1.filter(number_is(m1)).last() == r1.last());
        assert(r2.filter(number_is(m2)).last() == r2.last());
        assert(r1.last() == r2.last());
        let a1 = r1.drop_last();
        let a2 = r2.drop_last();
        let t = r1.last();
        assert forall|n: u32| #[trigger] a1.filter(number_is(n)) == a2.filter(number_is(n)) by {
            a1.lemma_filter_push(t, number_is(n));
            a2.lemma_filter_push(t, number_is(n));
            assert(r1.filter(number_is(n)) == r2.filter(number_is(n)));
            if t.number == n {
                assert(a1.filter(number_is(n)) =~= a1.filter(number_is(n)).push(t).drop_last());
                assert(a2.filter(number_is(n)) =~= a2.filter(number_is(n)).push(t).drop_last());
            }
        }
        assert(is_stable_sort_of(a1, a1));
        assert(is_stable_sort_of(a2, a1));
        lemma_stable_sort_unique(a1, a2, a1);
    }
}


/// The style classes of a tag's button: `tag`, then `active` when it is
/// active, then `urgent` when it is urgent.
pub open spec fn button_classes(t: Tag) -> Seq<Seq<char>> {
    seq!["tag"@] + (if t.active {
        seq!["active"@]
    } else {
        Seq::<Seq<char>>::empty()
    }) + (if t.urgent {
        seq!["urgent"@]
    } else {
        Seq::<Seq<char>>::empty()
    })
}

/// The style classes of a tag's button (see `button_classes`).
pub fn tag_button_classes(tag: &Tag) -> (res: Vec<String>)
    ensures
        views(res@) == button_classes(*tag),
{
    let mut res: Vec<String> = Vec::new();
    res.push(String::from_str("tag"));
    if tag.active {
        res.push(String::from_str("active"));
    }
    if tag.urgent {
        res.push(String::from_str("urgent"));
    }
    assert(views(res@) =~= button_classes(*tag));
    res
}


/// A tag's button always has the class `tag` first, has the class `active`
/// exactly when the tag is active and the class `urgent` exactly when it is
/// urgent, whatever its other flags are.
pub proof fn lemma_button_classes_follow_flags(t: Tag)
    ensures
        button_classes(t)[0] == "tag"@,
        button_classes(t).contains("active"@) <==> t.active,
        button_classes(t).contains("urgent"@) <==> t.urgent,
        button_classes(t).len() == 1 + (if t.active { 1int } else { 0 }) + (if t.urgent { 1int } else { 0 }),
{
    reveal_strlit("tag");
    reveal_strlit("active");
    reveal_strlit("urgent");
    assert("tag"@.len() == 3 && "active"@.len() == 6 && "urgent"@.len() == 6);
    assert("active"@[0] != "urgent"@[0]);
    let c = button_classes(t);
    if t.active {
        assert(c[1] == "active"@);
    }
    if t.urgent {
        assert(c[c.len() - 1] == "urgent"@);
    }
    if c.contains("active"@) {
        let i = choose|i: int| 0 <= i < c.len() && c[i] == "active"@;
        assert(c[i] != "tag"@);
        if !t.active {
            assert(c[i] == "urgent"@);
        }
    }
    if c.contains("urgent"@) {
        let i = choose|i: int| 0 <= i < c.len() && c[i] == "urgent"@;
        assert(c[i] != "tag"@);
        if !t.urgent {
            assert(c[i] == "active"@);
        }
    }
}

} // verus!
