//! Named `.layaut` files: which names are offered, and how the row of
//! boards a layout keeps grows and shrinks.
//!
//! Reads come from every root of an [`AssetRoots`] in order and writes go
//! only to its write root. What is on the disk — which directories exist,
//! which files they hold, what a file says — is asked of the caller, who
//! owns the disk; the decisions are made here.

use vstd::prelude::*;
use crate::assets::{dirs_answer, AssetRoots};
use crate::layout::def::{same_board, BoardId};
use crate::text::{chars_of, push_str};

verus! {

/// The name of the layout that exists without a file.
pub open spec fn default_name() -> Seq<char> {
    seq!['d', 'e', 'f', 'a', 'u', 'l', 't']
}

/// Whether a name is the toolkit's own bookkeeping: it starts with `'.'`.
pub open spec fn hidden(name: Seq<char>) -> bool {
    name.len() > 0 && name[0] == '.'
}

/// The offer after `name` is considered: a name already offered, or the
/// built-in one, is not offered twice, and a hidden one is not offered.
pub open spec fn offer(acc: Seq<Seq<char>>, name: Seq<char>) -> Seq<Seq<char>> {
    if name == default_name() || hidden(name) || acc.contains(name) {
        acc
    } else {
        acc.push(name)
    }
}

/// The offer after every name of `names`, in order.
pub open spec fn offer_all(acc: Seq<Seq<char>>, names: Seq<Seq<char>>) -> Seq<Seq<char>>
    decreases names.len(),
{
    if names.len() == 0 {
        acc
    } else {
        offer(offer_all(acc, names.drop_last()), names.last())
    }
}

/// The offer after every directory's names, the directories in search
/// order.
pub open spec fn offer_rows(acc: Seq<Seq<char>>, rows: Seq<Seq<Seq<char>>>) -> Seq<Seq<char>>
    decreases rows.len(),
{
    if rows.len() == 0 {
        acc
    } else {
        offer_all(offer_rows(acc, rows.drop_last()), rows.last())
    }
}

/// What [`LayautStore::list`] offers for the names found in each
/// directory of the search path: `"default"` first, then every other name
/// in the order it was first found.
pub open spec fn listed(rows: Seq<Seq<Seq<char>>>) -> Seq<Seq<char>> {
    offer_rows(seq![default_name()], rows)
}

/// The texts of a list of strings.
pub open spec fn names_of(v: Seq<String>) -> Seq<Seq<char>> {
    v.map_values(|s: String| s@)
}

/// The texts of the names found in each directory.
pub open spec fn rows_of(v: Seq<Vec<String>>) -> Seq<Seq<Seq<char>>> {
    v.map_values(|r: Vec<String>| names_of(r@))
}

/// Whether an offer is well made: `"default"` first and only there, no
/// hidden name, and no name twice.
pub open spec fn well_offered(o: Seq<Seq<char>>) -> bool {
    &&& o.len() >= 1
    &&& o[0] == default_name()
    &&& forall|i: int| 1 <= i < o.len() ==> o[i] != default_name()
    &&& forall|i: int| 0 <= i < o.len() ==> !hidden(#[trigger] o[i])
    &&& forall|i: int, j: int| 0 <= i < j < o.len() ==> o[i] != o[j]
}

proof fn lemma_offer_keeps(acc: Seq<Seq<char>>, name: Seq<char>)
    requires
        well_offered(acc),
    ensures
        well_offered(offer(acc, name)),
        offer(acc, name).contains(name) || name == default_name() || hidden(name),
        forall|n: Seq<char>| acc.contains(n) ==> offer(acc, name).contains(n),
        forall|n: Seq<char>|
            offer(acc, name).contains(n) ==> acc.contains(n) || n == name,
{
    if !(name == default_name() || hidden(name) || acc.contains(name)) {
        let r = acc.push(name);
        assert forall|i: int| 0 <= i < r.len() implies !hidden(#[trigger] r[i]) by {
            if i < acc.len() {
                assert(r[i] == acc[i]);
            }
        }
        assert(r[r.len() - 1] == name);
        assert forall|n: Seq<char>| acc.contains(n) implies r.contains(n) by {
            let i = choose|i: int| 0 <= i < acc.len() && acc[i] == n;
            assert(r[i] == n);
        }
        assert forall|n: Seq<char>| r.contains(n) implies acc.contains(n) || n == name by {
            let i = choose|i: int| 0 <= i < r.len() && r[i] == n;
            if i < acc.len() {
                assert(acc[i] == n);
            }
        }
    }
}

proof fn lemma_offer_all(acc: Seq<Seq<char>>, names: Seq<Seq<char>>)
    requires
        well_offered(acc),
    ensures
        well_offered(offer_all(acc, names)),
        forall|n: Seq<char>| acc.contains(n) ==> offer_all(acc, names).contains(n),
        forall|j: int|
            0 <= j < names.len() && names[j] != default_name() && !hidden(names[j]) ==> offer_all(
                acc,
                names,
            ).contains(#[trigger] names[j]),
        forall|n: Seq<char>|
            offer_all(acc, names).contains(n) ==> acc.contains(n) || names.contains(n),
    decreases names.len(),
{
    if names.len() > 0 {
        let prev = offer_all(acc, names.drop_last());
        lemma_offer_all(acc, names.drop_last());
        lemma_offer_keeps(prev, names.last());
        assert forall|j: int|
            0 <= j < names.len() && names[j] != default_name() && !hidden(names[j]) implies offer_all(
            acc,
            names,
        ).contains(#[trigger] names[j]) by {
            if j < names.len() - 1 {
                assert(names.drop_last()[j] == names[j]);
            }
        }
        assert forall|n: Seq<char>|
            offer_all(acc, names).contains(n) implies acc.contains(n) || names.contains(n) by {
            if prev.contains(n) {
                if names.drop_last().contains(n) {
                    let j = choose|j: int| 0 <= j < names.drop_last().len() && names.drop_last()[j] == n;
                    assert(names[j] == n);
                }
            } else {
                assert(names[names.len() - 1] == n);
            }
        }
    }
}

/// The offer is well made whatever the directories held: `"default"`
/// first, no name twice, no hidden name; every other name found anywhere
/// is offered; and only names that were found, or `"default"`, are.
pub proof fn law_every_found_name_is_offered_once(rows: Seq<Seq<Seq<char>>>)
    ensures
        well_offered(listed(rows)),
        forall|r: int, j: int|
            0 <= r < rows.len() && 0 <= j < rows[r].len() && !hidden(rows[r][j]) ==> listed(rows).contains(
                #[trigger] rows[r][j],
            ),
        forall|n: Seq<char>|
            #![trigger listed(rows).contains(n)]
            listed(rows).contains(n) ==> n == default_name() || exists|r: int|
                0 <= r < rows.len() && (#[trigger] rows[r]).contains(n),
    decreases rows.len(),
{
    let init = seq![default_name()];
    assert(init[0] == default_name());
    if rows.len() > 0 {
        let prev = listed(rows.drop_last());
        law_every_found_name_is_offered_once(rows.drop_last());
        lemma_offer_all(prev, rows.last());
        assert forall|r: int, j: int|
            0 <= r < rows.len() && 0 <= j < rows[r].len() && !hidden(rows[r][j]) implies listed(rows).contains(
            #[trigger] rows[r][j],
        ) by {
            if r < rows.len() - 1 {
                assert(rows.drop_last()[r] == rows[r]);
                assert(prev.contains(rows.drop_last()[r][j]));
            } else if rows[r][j] == default_name() {
                assert(prev[0] == default_name());
                assert(prev.contains(default_name()));
            }
        }
        assert forall|n: Seq<char>| #[trigger] listed(rows).contains(n) implies n == default_name()
            || exists|r: int| 0 <= r < rows.len() && (#[trigger] rows[r]).contains(n) by {
            if prev.contains(n) {
                if n != default_name() {
                    let r = choose|r: int|
                        0 <= r < rows.drop_last().len() && (#[trigger] rows.drop_last()[r]).contains(n);
                    assert(rows[r] == rows.drop_last()[r]);
                }
            } else {
                assert(rows[rows.len() - 1] == rows.last());
            }
        }
    } else {
        assert forall|n: Seq<char>| #[trigger] listed(rows).contains(n) implies n == default_name()
            || exists|r: int| 0 <= r < rows.len() && (#[trigger] rows[r]).contains(n) by {
            let i = choose|i: int| 0 <= i < init.len() && init[i] == n;
            assert(init[i] == default_name());
        }
    }
}

fn is_hidden(name: &String) -> (b: bool)
    ensures
        b == hidden(name@),
{
    let v = chars_of(name.as_str());
    v.len() > 0 && v[0] == '.'
}

fn offered(out: &Vec<String>, name: &String) -> (b: bool)
    ensures
        b == names_of(out@).contains(name@),
{
    let mut i: usize = 0;
    while i < out.len()
        invariant
            i <= out@.len(),
            forall|k: int| 0 <= k < i ==> out@[k]@ != name@,
        decreases out.len() - i,
    {
        if out[i] == *name {
            assert(names_of(out@)[i as int] == name@);
            return true;
        }
        i += 1;
    }
    assert forall|k: int| 0 <= k < names_of(out@).len() implies names_of(out@)[k] != name@ by {
        assert(names_of(out@)[k] == out@[k]@);
    }
    false
}

/// The names offered for the names found in each directory of the search
/// path (`found[i]` holding what the `i`-th directory holds).
pub fn merge_names(found: &Vec<Vec<String>>) -> (r: Vec<String>)
    ensures
        names_of(r@) == listed(rows_of(found@)),
{
    let mut out: Vec<String> = Vec::new();
    let mut d = String::new();
    push_str(&mut d, "default");
    proof {
        reveal_strlit("default");
        assert(d@ == default_name());
    }
    out.push(d.clone());
    assert(names_of(out@) == seq![default_name()]);
    let mut i: usize = 0;
    while i < found.len()
        invariant
            i <= found@.len(),
            d@ == default_name(),
            names_of(out@) == offer_rows(seq![default_name()], rows_of(found@).take(i as int)),
        decreases found.len() - i,
    {
        let row = &found[i];
        let ghost before = names_of(out@);
        let mut j: usize = 0;
        while j < row.len()
            invariant
                j <= row@.len(),
                d@ == default_name(),
                names_of(out@) == offer_all(before, names_of(row@).take(j as int)),
            decreases row.len() - j,
        {
            let name = &row[j];
            let ghost prev = names_of(out@);
            if !(*name == d) && !is_hidden(name) && !offered(&out, name) {
                out.push(name.clone());
                assert(names_of(out@) == prev.push(name@));
            }
            proof {
                let t = names_of(row@).take(j + 1);
                assert(t.drop_last() == names_of(row@).take(j as int));
                assert(t.last() == name@);
            }
            j += 1;
        }
        proof {
            let rows = rows_of(found@).take(i + 1);
            assert(rows.drop_last() == rows_of(found@).take(i as int));
            assert(rows.last() == names_of(row@));
            assert(names_of(row@).take(row@.len() as int) == names_of(row@));
        }
        i += 1;
    }
    assert(rows_of(found@).take(found@.len() as int) == rows_of(found@));
    out
}

/// The position of a board along the row as seen from side `s` (`1` to
/// the right, `-1` to the left), and how far out the row reaches on that
/// side: 0 when it holds no board there.
pub open spec fn reach<D>(boards: Seq<(BoardId, D)>, s: int) -> int
    decreases boards.len(),
{
    if boards.len() == 0 {
        0
    } else {
        let r = reach(boards.drop_last(), s);
        let id = boards.last().0;
        if id.1 == 0 && id.0 * s > r {
            id.0 * s
        } else {
            r
        }
    }
}

/// The direction a side asks for: negative is left, anything else right.
pub open spec fn direction(side: i8) -> int {
    if side < 0 {
        -1
    } else {
        1
    }
}

/// Where a board added on `side` stands: one step past the outermost
/// board of the row on that side.
pub open spec fn next_board<D>(boards: Seq<(BoardId, D)>, side: i8) -> BoardId {
    let s = direction(side);
    (((reach(boards, s) + 1) * s) as i32, 0i32)
}

/// `s` without the board at `k`.
pub open spec fn without_board<D>(s: Seq<(BoardId, D)>, k: BoardId) -> Seq<(BoardId, D)>
    decreases s.len(),
{
    if s.len() == 0 {
        s
    } else if s.last().0 == k {
        without_board(s.drop_last(), k)
    } else {
        without_board(s.drop_last(), k).push(s.last())
    }
}

/// Whether a row's positions can be counted from side `s` in 32 bits:
/// every board on the row stands at a distance that is representable and
/// short of the largest, so the next one out is representable too.
pub open spec fn countable<D>(boards: Seq<(BoardId, D)>, s: int) -> bool {
    forall|k: int|
        0 <= k < boards.len() && (#[trigger] boards[k]).0.1 == 0 ==> i32::MIN <= boards[k].0.0 * s
            < i32::MAX
}

proof fn lemma_reach<D>(boards: Seq<(BoardId, D)>, s: int)
    requires
        s == 1 || s == -1,
        countable(boards, s),
    ensures
        0 <= reach(boards, s) < i32::MAX,
        forall|k: int|
            0 <= k < boards.len() && (#[trigger] boards[k]).0.1 == 0 ==> boards[k].0.0 * s
                <= reach(boards, s),
    decreases boards.len(),
{
    if boards.len() > 0 {
        let p = boards.drop_last();
        assert forall|k: int| 0 <= k < p.len() && (#[trigger] p[k]).0.1 == 0 implies i32::MIN
            <= p[k].0.0 * s < i32::MAX by {
            assert(p[k] == boards[k]);
        }
        lemma_reach(p, s);
        assert forall|k: int|
            0 <= k < boards.len() && (#[trigger] boards[k]).0.1 == 0 implies boards[k].0.0 * s
            <= reach(boards, s) by {
            if k < boards.len() - 1 {
                assert(p[k] == boards[k]);
            }
        }
    }
}

proof fn lemma_without_absent<D>(s: Seq<(BoardId, D)>, k: BoardId)
    requires
        forall|i: int| 0 <= i < s.len() ==> (#[trigger] s[i]).0 != k,
    ensures
        without_board(s, k) == s,
    decreases s.len(),
{
    if s.len() > 0 {
        let p = s.drop_last();
        assert forall|i: int| 0 <= i < p.len() implies (#[trigger] p[i]).0 != k by {
            assert(p[i] == s[i]);
        }
        lemma_without_absent(p, k);
        assert(s.last() == s[s.len() - 1]);
    }
}

/// The named layouts on a filesystem.
pub struct LayautStore {
    roots: AssetRoots,
}

impl LayautStore {
    /// The roots this store reads from and writes to.
    pub closed spec fn roots(&self) -> AssetRoots {
        self.roots
    }

    pub fn new(roots: AssetRoots) -> (s: Self)
        ensures
            s.roots() == roots,
    {
        LayautStore { roots }
    }

    /// `"default"` plus every layout name on the search path, the first
    /// root holding a name winning its place. `is_dir` answers whether a
    /// directory exists; `stems` lists the `<name>.layaut` files of one,
    /// dotfiles left out (they are the toolkit's own bookkeeping).
    pub fn list<F: Fn(&String) -> bool, G: Fn(&String) -> Vec<String>>(
        &self,
        is_dir: F,
        stems: G,
    ) -> (r: Vec<String>)
        requires
            forall|p: &String| is_dir.requires((p,)),
            forall|p: &String| stems.requires((p,)),
        ensures
            well_offered(names_of(r@)),
            exists|dirs: Seq<String>, found: Seq<Vec<String>>|
                #![trigger listed(rows_of(found)), dirs.len()]
                {
                    &&& dirs_answer(self.roots().read@, "layauts"@, is_dir, dirs)
                    &&& dirs.len() == found.len()
                    &&& forall|i: int| 0 <= i < dirs.len() ==> stems.ensures((&dirs[i],), #[trigger] found[i])
                    &&& names_of(r@) == listed(rows_of(found))
                },
    {
        let dirs = self.roots.dirs("layauts", is_dir);
        let mut found: Vec<Vec<String>> = Vec::new();
        let mut i: usize = 0;
        while i < dirs.len()
            invariant
                i <= dirs@.len(),
                found@.len() == i,
                forall|p: &String| stems.requires((p,)),
                forall|k: int| 0 <= k < dirs@.len() ==> is_dir.ensures((&dirs@[k],), true),
                forall|k: int| 0 <= k < i ==> stems.ensures((&dirs@[k],), #[trigger] found@[k]),
            decreases dirs.len() - i,
        {
            let names = stems(&dirs[i]);
            found.push(names);
            i += 1;
        }
        let r = merge_names(&found);
        proof {
            law_every_found_name_is_offered_once(rows_of(found@));
        }
        r
    }

    /// A new, empty board `blank` at the given end of the horizontal row
    /// (negative is left, anything else right), one step past the board
    /// standing furthest out there. Only the row grows: the top and
    /// bottom boards are fixtures, one each, like home.
    pub fn add_board<D>(boards: &mut Vec<(BoardId, D)>, side: i8, blank: D)
        requires
            countable(old(boards)@, direction(side)),
        ensures
            final(boards)@ == old(boards)@.push((next_board(old(boards)@, side), blank)),
    {
        let s: i64 = if side < 0 {
            -1
        } else {
            1
        };
        let ghost b0 = boards@;
        let mut best: i64 = 0;
        let mut i: usize = 0;
        while i < boards.len()
            invariant
                i <= boards@.len(),
                boards@ == b0,
                s == direction(side),
                countable(b0, s as int),
                best == reach(b0.take(i as int), s as int),
                0 <= best < i32::MAX,
            decreases boards.len() - i,
        {
            let id = boards[i].0;
            let v: i64 = (id.0 as i64) * s;
            proof {
                let t = b0.take(i + 1);
                assert(t.drop_last() == b0.take(i as int));
                assert(t.last() == b0[i as int]);
                assert(id == b0[i as int].0);
            }
            if id.1 == 0 && v > best {
                assert(i32::MIN <= b0[i as int].0.0 * s < i32::MAX);
                best = v;
            }
            i += 1;
        }
        assert(b0.take(b0.len() as int) == b0);
        let next = ((best + 1) * s) as i32;
        boards.push(((next, 0), blank));
    }

    /// Removes a board of the horizontal row; the ones beyond it close
    /// ranks when the layout is next written out. The top and bottom
    /// boards are permanent and stay whatever is asked.
    pub fn remove_board<D>(boards: &mut Vec<(BoardId, D)>, k: BoardId)
        ensures
            final(boards)@ == (if k.1 != 0 {
                old(boards)@
            } else {
                without_board(old(boards)@, k)
            }),
    {
        if k.1 != 0 {
            return;
        }
        let ghost b0 = boards@;
        let mut i: usize = 0;
        let ghost mut j: int = 0;
        while i < boards.len()
            invariant
                0 <= i <= j <= b0.len(),
                boards@.len() == i + (b0.len() - j),
                boards@.take(i as int) == without_board(b0.take(j), k),
                boards@.skip(i as int) == b0.skip(j),
            decreases boards.len() - i,
        {
            let here = boards[i].0;
            proof {
                assert(boards@.skip(i as int)[0] == b0[j]);
                let t = b0.take(j + 1);
                assert(t.drop_last() == b0.take(j));
                assert(t.last() == b0[j]);
            }
            if same_board(here, k) {
                let ghost pre = boards@;
                boards.remove(i);
                proof {
                    assert(boards@.take(i as int) == pre.take(i as int));
                    assert(boards@.skip(i as int) == pre.skip(i + 1));
                    assert(b0.skip(j + 1) == b0.skip(j).drop_first());
                    j = j + 1;
                }
            } else {
                let ghost pre = boards@;
                proof {
                    assert(boards@.take(i + 1) == pre.take(i as int).push(pre[i as int]));
                    assert(b0.skip(j + 1) == b0.skip(j).drop_first());
                    assert(boards@.skip(i + 1) == pre.skip(i as int).drop_first());
                    j = j + 1;
                }
                i += 1;
            }
        }
        proof {
            assert(j == b0.len());
            assert(b0.take(j) == b0);
            assert(boards@.take(i as int) == boards@);
        }
    }
}

/// A board added to the row stands where no board stood before, furthest
/// out on its side: every board already on that side of the row is
/// nearer home.
pub proof fn law_a_new_board_is_the_outermost<D>(boards: Seq<(BoardId, D)>, side: i8)
    requires
        countable(boards, direction(side)),
    ensures
        forall|k: int| 0 <= k < boards.len() ==> (#[trigger] boards[k]).0 != next_board(
            boards,
            side,
        ),
        forall|k: int|
            0 <= k < boards.len() && (#[trigger] boards[k]).0.1 == 0 ==> boards[k].0.0 * direction(
                side,
            ) < next_board(boards, side).0 * direction(side),
        next_board(boards, side).1 == 0,
        next_board(boards, side).0 * direction(side) >= 1,
{
    let s = direction(side);
    lemma_reach(boards, s);
    let n = next_board(boards, side);
    assert(n.0 * s == reach(boards, s) + 1) by (nonlinear_arith)
        requires
            s == 1 || s == -1,
            n.0 == (reach(boards, s) + 1) * s,
    ;
}

/// Adding a board and then removing it leaves the row as it was: the new
/// board took no place that another stood on.
pub proof fn law_adding_then_removing_a_board_restores_the_row<D>(
    boards: Seq<(BoardId, D)>,
    side: i8,
    blank: D,
)
    requires
        countable(boards, direction(side)),
    ensures
        without_board(boards.push((next_board(boards, side), blank)), next_board(boards, side))
            == boards,
{
    law_a_new_board_is_the_outermost(boards, side);
    let k = next_board(boards, side);
    let p = boards.push((k, blank));
    assert(p.drop_last() == boards);
    lemma_without_absent(boards, k);
}

} // verus!
