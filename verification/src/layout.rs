//! The layout representation: a `Blueprint` grid of characters and the
//! `Layout` caches derived from it, plus the pure swap transformation
//! that the search engine mutates blueprints with.

use crate::assoc::{
    assoc_find, distinct_keys, lemma_assoc_find_push, lemma_assoc_find_skip_found,
    lemma_assoc_find_skip_step, lemma_assoc_find_update,
};
use crate::geometry::{
    spec_row_width, spec_position_cost, spec_layer_cost, spec_key_base_cost, spec_finger_for,
    spec_pos_is_left, spec_right_hand_lowest, pos_ok, key_base_cost, layer_cost, finger_for,
    right_hand_lowest, row_width, Finger, Position, LAYER_COUNT, ROW_COUNT,
};
use vstd::pervasive::VecAdditionalExecFns;
use vstd::prelude::*;
use vstd::string::*;
use crate::errors::KloError;
use crate::klo_options::KloOptions;
use crate::scan::{chars_of, split_chars, split_keep};

verus! {

/// One layer of a key: the character typed there, or empty.
pub type Layer = String;

/// One physical key: its layers.
pub type Key = Vec<Layer>;

/// One row of keys.
pub type Row = Vec<Key>;

/// A plan for how to construct a [`Layout`]: rows of keys of layers.
pub type Blueprint = Vec<Row>;

/// The mathematical shape of a blueprint: rows of keys of layer texts.
pub type BlueprintView = Seq<Seq<Seq<Seq<char>>>>;

/// The blueprint fits the device geometry, so every cell has a
/// position the cost and finger tables cover.
pub open spec fn shape_ok(v: BlueprintView) -> bool {
    &&& v.len() <= ROW_COUNT
    &&& forall|r: int| 0 <= r < v.len() ==> #[trigger] v[r].len() <= spec_row_width(r)
    &&& forall|r: int, s: int|
        0 <= r < v.len() && 0 <= s < v[r].len() ==> #[trigger] v[r][s].len() <= LAYER_COUNT
}

/// The position lies inside the blueprint.
pub open spec fn pos_in(v: BlueprintView, p: Position) -> bool {
    &&& p.row < v.len()
    &&& p.slot < v[p.row as int].len()
    &&& p.layer < v[p.row as int][p.slot as int].len()
}

/// The text of the cell at `p`.
pub open spec fn cell_at(v: BlueprintView, p: Position) -> Seq<char> {
    v[p.row as int][p.slot as int][p.layer as int]
}

/// The cell at `p` holds exactly the character `c`.
pub open spec fn cell_is_char(v: BlueprintView, p: Position, c: char) -> bool {
    &&& pos_in(v, p)
    &&& cell_at(v, p).len() == 1
    &&& cell_at(v, p)[0] == c
}

/// The character appears somewhere in the blueprint.
pub open spec fn char_in(v: BlueprintView, c: char) -> bool {
    exists|p: Position| cell_is_char(v, p, c)
}

/// Row-major, then slot-major, then layer-major order of positions:
/// the order in which [`Layout::from_blueprint`] walks the cells.
pub open spec fn pos_before(p: Position, q: Position) -> bool {
    ||| p.row < q.row
    ||| (p.row == q.row && p.slot < q.slot)
    ||| (p.row == q.row && p.slot == q.slot && p.layer < q.layer)
}

/// `p` is the cell the derived caches assign to `c`: it holds `c`, no
/// cell holding `c` costs less, and among equally cheap cells it is
/// the first in walking order.
pub open spec fn selected(v: BlueprintView, c: char, p: Position) -> bool {
    &&& cell_is_char(v, p, c)
    &&& forall|q: Position| #[trigger]
        cell_is_char(v, q, c) ==> spec_position_cost(p) <= spec_position_cost(q)
    &&& forall|q: Position| #[trigger]
        cell_is_char(v, q, c) && spec_position_cost(q) == spec_position_cost(p) && q != p
            ==> pos_before(p, q)
}

/// The first layer of key (r, s) holds exactly the character `c`.
pub open spec fn top_is(v: BlueprintView, r: int, s: int, c: char) -> bool {
    &&& 0 <= r < v.len()
    &&& 0 <= s < v[r].len()
    &&& v[r][s].len() >= 1
    &&& v[r][s][0].len() == 1
    &&& v[r][s][0][0] == c
}

/// `c` appears on some key's first layer.
pub open spec fn has_top(v: BlueprintView, c: char) -> bool {
    exists|r: int, s: int| top_is(v, r, s, c)
}

/// `c` appears on exactly one key's first layer.
pub open spec fn unique_top(v: BlueprintView, c: char) -> bool {
    &&& has_top(v, c)
    &&& forall|r1: int, s1: int, r2: int, s2: int|
        #[trigger] top_is(v, r1, s1, c) && #[trigger] top_is(v, r2, s2, c) ==> r1 == r2 && s1
            == s2
}

/// (r, s) is the last key in scanning order whose first layer holds `c`.
pub open spec fn is_last_top(v: BlueprintView, c: char, r: int, s: int) -> bool {
    &&& top_is(v, r, s, c)
    &&& forall|r2: int, s2: int| #[trigger]
        top_is(v, r2, s2, c) ==> r2 < r || (r2 == r && s2 <= s)
}

/// Where [`get_key_pos`] finds `c`: the last key in scanning order
/// whose first layer holds exactly `c`.
pub open spec fn spec_top_pos(v: BlueprintView, c: char) -> Option<(int, int)> {
    if exists|rs: (int, int)| is_last_top(v, c, rs.0, rs.1) {
        Some(choose|rs: (int, int)| is_last_top(v, c, rs.0, rs.1))
    } else {
        None
    }
}

/// Two last keys for the same character are the same key.
pub proof fn lemma_last_top_unique(v: BlueprintView, c: char, r1: int, s1: int, r2: int, s2: int)
    requires
        is_last_top(v, c, r1, s1),
        is_last_top(v, c, r2, s2),
    ensures
        r1 == r2 && s1 == s2,
{
}

/// The blueprint with the first layer of key (r, s) replaced by `cell`.
pub open spec fn set_top_view(v: BlueprintView, r: int, s: int, cell: Seq<char>) -> BlueprintView {
    v.update(r, v[r].update(s, v[r][s].update(0, cell)))
}

/// The blueprint that results from exchanging the first-layer cells of
/// the keys holding `a` and `b`. When the two characters are equal, or
/// either is missing from the first layer, nothing changes.
pub open spec fn spec_apply_swap(v: BlueprintView, a: char, b: char) -> BlueprintView {
    if a == b {
        v
    } else {
        match (spec_top_pos(v, a), spec_top_pos(v, b)) {
            (Some(pa), Some(pb)) => set_top_view(
                set_top_view(v, pa.0, pa.1, v[pb.0][pb.1][0]),
                pb.0,
                pb.1,
                v[pa.0][pa.1][0],
            ),
            _ => v,
        }
    }
}

/// Finds the last key in scanning order whose first layer holds
/// exactly the character `needle`.
pub fn get_key_pos(bp: &Blueprint, needle: char) -> (r: Option<(usize, usize)>)
    ensures
        match r {
            Some(rs) => spec_top_pos(bp.deep_view(), needle) == Some((rs.0 as int, rs.1 as int)),
            None => spec_top_pos(bp.deep_view(), needle) == None::<(int, int)>,
        },
{
    let ghost v = bp.deep_view();
    let mut found: Option<(usize, usize)> = None;
    let mut ri: usize = 0;
    while ri < bp.len()
        invariant
            ri <= bp.len(),
            v == bp.deep_view(),
            v.len() == bp.len(),
            match found {
                None => forall|r2: int, s2: int| #[trigger]
                    top_is(v, r2, s2, needle) ==> r2 >= ri,
                Some(fs) => top_is(v, fs.0 as int, fs.1 as int, needle) && (fs.0 as int) < ri
                    && forall|r2: int, s2: int| #[trigger]
                    top_is(v, r2, s2, needle) && r2 < ri ==> r2 < fs.0 || (r2 == fs.0 && s2
                        <= fs.1),
            },
        decreases bp.len() - ri,
    {
        let row_len: usize = bp[ri].len();
        proof {
            assert(v[ri as int] == bp@[ri as int].deep_view());
        }
        let mut si: usize = 0;
        while si < row_len
            invariant
                ri < bp.len(),
                si <= row_len,
                v == bp.deep_view(),
                v.len() == bp.len(),
                row_len == v[ri as int].len(),
                match found {
                    None => forall|r2: int, s2: int| #[trigger]
                        top_is(v, r2, s2, needle) ==> r2 > ri || (r2 == ri && s2 >= si),
                    Some(fs) => top_is(v, fs.0 as int, fs.1 as int, needle) && ((fs.0 as int) < ri
                        || (fs.0 == ri && (fs.1 as int) < si)) && forall|r2: int, s2: int|
                        #[trigger] top_is(v, r2, s2, needle) && (r2 < ri || (r2 == ri && s2 < si))
                            ==> r2 < fs.0 || (r2 == fs.0 && s2 <= fs.1),
                },
            decreases row_len - si,
        {
            let key = &bp[ri][si];
            proof {
                assert(v[ri as int][si as int] == bp@[ri as int]@[si as int].deep_view());
            }
            if key.len() > 0 {
                let cell: &String = &key[0];
                proof {
                    assert(v[ri as int][si as int][0] == bp@[ri as int]@[si as int]@[0]@);
                }
                if cell.as_str().unicode_len() == 1 {
                    if cell.as_str().get_char(0) == needle {
                        assert(top_is(v, ri as int, si as int, needle));
                        found = Some((ri, si));
                    }
                }
            }
            si += 1;
        }
        ri += 1;
    }
    proof {
        match found {
            None => {
                assert(forall|r2: int, s2: int| #[trigger]
                    top_is(v, r2, s2, needle) ==> r2 >= v.len());
                assert(!(exists|rs: (int, int)| is_last_top(v, needle, rs.0, rs.1))) by {
                    if exists|rs: (int, int)| is_last_top(v, needle, rs.0, rs.1) {
                        let rs = choose|rs: (int, int)| is_last_top(v, needle, rs.0, rs.1);
                        assert(top_is(v, rs.0, rs.1, needle));
                    }
                }
            },
            Some(fs) => {
                assert(is_last_top(v, needle, fs.0 as int, fs.1 as int));
                let rs = choose|rs: (int, int)| is_last_top(v, needle, rs.0, rs.1);
                lemma_last_top_unique(v, needle, rs.0, rs.1, fs.0 as int, fs.1 as int);
            },
        }
    }
    found
}

/// Copies a blueprint cell for cell.
pub fn copy_blueprint(bp: &Blueprint) -> (r: Blueprint)
    ensures
        r.deep_view() == bp.deep_view(),
        r@.len() == bp@.len(),
{
    let mut out: Blueprint = Vec::new();
    let mut ri: usize = 0;
    while ri < bp.len()
        invariant
            ri <= bp.len(),
            out@.len() == ri,
            out.deep_view() =~~= bp.deep_view().take(ri as int),
        decreases bp.len() - ri,
    {
        let row = &bp[ri];
        let mut new_row: Row = Vec::new();
        let mut si: usize = 0;
        while si < row.len()
            invariant
                ri < bp.len(),
                si <= row.len(),
                row == &bp[ri as int],
                new_row@.len() == si,
                new_row.deep_view() =~~= row.deep_view().take(si as int),
            decreases row.len() - si,
        {
            let key = &row[si];
            let mut new_key: Key = Vec::new();
            let mut li: usize = 0;
            while li < key.len()
                invariant
                    si < row.len(),
                    li <= key.len(),
                    key == &row@[si as int],
                    new_key@.len() == li,
                    new_key.deep_view() =~~= key.deep_view().take(li as int),
                decreases key.len() - li,
            {
                let ghost pre = new_key@;
                let cell_copy: String = key[li].clone();
                proof {
                    assert(cell_copy@ == key@[li as int]@);
                }
                new_key.push(cell_copy);
                proof {
                    assert forall|i: int| 0 <= i <= li implies new_key.deep_view()[i]
                        == key.deep_view()[i] by {
                        if i < li {
                            assert(new_key@[i] == pre[i]);
                            assert(Seq::new(pre.len(), |j: int| pre[j].deep_view())[i] == pre[i].deep_view());
                        }
                    }
                    assert(new_key.deep_view() =~~= key.deep_view().take(li + 1));
                }
                li += 1;
            }
            proof {
                assert(new_key.deep_view() =~~= key.deep_view());
            }
            new_row.push(new_key);
            proof {
                assert(new_row.deep_view() =~~= row.deep_view().take(si + 1));
            }
            si += 1;
        }
        proof {
            assert(new_row.deep_view() =~~= row.deep_view());
            assert(new_row.deep_view() =~~= bp.deep_view()[ri as int]);
        }
        out.push(new_row);
        proof {
            assert(out.deep_view() =~~= bp.deep_view().take(ri + 1));
        }
        ri += 1;
    }
    proof {
        assert(out.deep_view() =~~= bp.deep_view());
    }
    out
}

/// Replaces the first layer of key (r, s) with `cell`.
fn set_top_cell(bp: &mut Blueprint, r: usize, s: usize, cell: String)
    requires
        r < old(bp).deep_view().len(),
        s < old(bp).deep_view()[r as int].len(),
        old(bp).deep_view()[r as int][s as int].len() >= 1,
    ensures
        final(bp).deep_view() == set_top_view(old(bp).deep_view(), r as int, s as int, cell@),
        final(bp)@.len() == old(bp)@.len(),
{
    let ghost v0 = bp.deep_view();
    let mut row: Row = bp.remove(r);
    let mut key: Key = row.remove(s);
    key.set(0, cell);
    proof {
        assert(key.deep_view() =~~= v0[r as int][s as int].update(0, cell@));
    }
    row.insert(s, key);
    proof {
        assert(row.deep_view() =~~= v0[r as int].update(s as int, v0[r as int][s as int].update(0, cell@)));
    }
    bp.insert(r, row);
    proof {
        assert(bp.deep_view() =~~= set_top_view(v0, r as int, s as int, cell@));
    }
}

/// Returns a new blueprint with the first-layer cells of the keys
/// holding `a` and `b` exchanged and every other cell untouched. The
/// input is never changed; when either character is missing from the
/// first layer, or the two are equal, the copy is returned unchanged.
pub fn apply_swap(bp: &Blueprint, a: char, b: char) -> (r: Blueprint)
    ensures
        r.deep_view() == spec_apply_swap(bp.deep_view(), a, b),
{
    let mut out = copy_blueprint(bp);
    if a == b {
        return out;
    }
    let pos_a = get_key_pos(bp, a);
    let pos_b = get_key_pos(bp, b);
    match (pos_a, pos_b) {
        (Some((ra, sa)), Some((rb, sb))) => {
            let ghost v = bp.deep_view();
            proof {
                assert(is_last_top(v, a, ra as int, sa as int)) by {
                    let rs = choose|rs: (int, int)| is_last_top(v, a, rs.0, rs.1);
                }
                assert(is_last_top(v, b, rb as int, sb as int)) by {
                    let rs = choose|rs: (int, int)| is_last_top(v, b, rs.0, rs.1);
                }
            }
            let cell_a: String = out[ra][sa][0].clone();
            let cell_b: String = out[rb][sb][0].clone();
            proof {
                assert(cell_a@ == v[ra as int][sa as int][0]);
                assert(cell_b@ == v[rb as int][sb as int][0]);
            }
            set_top_cell(&mut out, ra, sa, cell_b);
            proof {
                let w1 = set_top_view(v, ra as int, sa as int, cell_b@);
                assert(out.deep_view() == w1);
                assert(w1.len() == v.len());
                assert(w1[rb as int].len() == v[rb as int].len());
                assert(w1[rb as int][sb as int].len() == v[rb as int][sb as int].len());
            }
            set_top_cell(&mut out, rb, sb, cell_a);
            out
        },
        _ => out,
    }
}

/// A character with several first-layer keys makes the swap's find
/// ambiguous; everywhere else the swap of a missing character is the
/// identity.
pub proof fn lemma_swap_missing_char(v: BlueprintView, a: char, b: char)
    requires
        !has_top(v, a) || !has_top(v, b),
    ensures
        spec_apply_swap(v, a, b) == v,
{
    if a != b {
        if !has_top(v, a) {
            assert(spec_top_pos(v, a) == None::<(int, int)>) by {
                if exists|rs: (int, int)| is_last_top(v, a, rs.0, rs.1) {
                    let rs = choose|rs: (int, int)| is_last_top(v, a, rs.0, rs.1);
                    assert(top_is(v, rs.0, rs.1, a));
                }
            }
        } else {
            assert(spec_top_pos(v, b) == None::<(int, int)>) by {
                if exists|rs: (int, int)| is_last_top(v, b, rs.0, rs.1) {
                    let rs = choose|rs: (int, int)| is_last_top(v, b, rs.0, rs.1);
                    assert(top_is(v, rs.0, rs.1, b));
                }
            }
        }
    }
}

/// Exchanging the same two characters twice restores the blueprint:
/// the swap is its own inverse wherever neither character sits on more
/// than one key's first layer.
pub proof fn lemma_apply_swap_involution(v: BlueprintView, a: char, b: char)
    requires
        unique_top(v, a) || !has_top(v, a),
        unique_top(v, b) || !has_top(v, b),
    ensures
        spec_apply_swap(spec_apply_swap(v, a, b), a, b) == v,
{
    if a == b {
        return ;
    }
    if !has_top(v, a) || !has_top(v, b) {
        lemma_swap_missing_char(v, a, b);
        lemma_swap_missing_char(v, a, b);
        return ;
    }
    let pa = choose|rs: (int, int)| is_last_top(v, a, rs.0, rs.1);
    let pb = choose|rs: (int, int)| is_last_top(v, b, rs.0, rs.1);
    lemma_unique_top_last(v, a);
    lemma_unique_top_last(v, b);
    let ra = pa.0;
    let sa = pa.1;
    let rb = pb.0;
    let sb = pb.1;
    let cell_a = v[ra][sa][0];
    let cell_b = v[rb][sb][0];
    assert((ra, sa) != (rb, sb));
    let w = spec_apply_swap(v, a, b);
    assert(w == set_top_view(set_top_view(v, ra, sa, cell_b), rb, sb, cell_a));
    assert(w.len() == v.len());
    assert(forall|r: int| 0 <= r < v.len() ==> #[trigger] w[r].len() == v[r].len());
    assert(forall|r: int, s: int|
        0 <= r < v.len() && 0 <= s < v[r].len() ==> #[trigger] w[r][s].len() == v[r][s].len());
    assert(forall|r: int, s: int, l: int|
        0 <= r < v.len() && 0 <= s < v[r].len() && 0 <= l < v[r][s].len() && !(r == ra && s == sa
            && l == 0) && !(r == rb && s == sb && l == 0) ==> #[trigger] w[r][s][l] == v[r][s][l]);
    assert(w[ra][sa][0] == cell_b);
    assert(w[rb][sb][0] == cell_a);
    // In the swapped blueprint the two characters have traded keys.
    assert(top_is(w, rb, sb, a));
    assert(top_is(w, ra, sa, b));
    assert(is_last_top(w, a, rb, sb)) by {
        assert forall|r2: int, s2: int| #[trigger] top_is(w, r2, s2, a) implies r2 < rb || (r2 == rb
            && s2 <= sb) by {
            if !(r2 == ra && s2 == sa) && !(r2 == rb && s2 == sb) {
                assert(top_is(v, r2, s2, a));
                assert(r2 == ra && s2 == sa);
            } else if r2 == ra && s2 == sa {
                assert(w[ra][sa][0][0] == b);
                assert(false);
            }
        }
    }
    assert(is_last_top(w, b, ra, sa)) by {
        assert forall|r2: int, s2: int| #[trigger] top_is(w, r2, s2, b) implies r2 < ra || (r2 == ra
            && s2 <= sa) by {
            if !(r2 == ra && s2 == sa) && !(r2 == rb && s2 == sb) {
                assert(top_is(v, r2, s2, b));
                assert(r2 == rb && s2 == sb);
            } else if r2 == rb && s2 == sb {
                assert(w[rb][sb][0][0] == a);
                assert(false);
            }
        }
    }
    let qa = choose|rs: (int, int)| is_last_top(w, a, rs.0, rs.1);
    let qb = choose|rs: (int, int)| is_last_top(w, b, rs.0, rs.1);
    lemma_last_top_unique(w, a, qa.0, qa.1, rb, sb);
    lemma_last_top_unique(w, b, qb.0, qb.1, ra, sa);
    let u = spec_apply_swap(w, a, b);
    assert(u == set_top_view(set_top_view(w, rb, sb, w[ra][sa][0]), ra, sa, w[rb][sb][0]));
    assert forall|r: int| 0 <= r < v.len() implies #[trigger] u[r] =~~= v[r] by {
        assert(u[r].len() == v[r].len());
        assert forall|s: int| 0 <= s < v[r].len() implies #[trigger] u[r][s] =~~= v[r][s] by {
            assert(u[r][s].len() == v[r][s].len());
            assert forall|l: int| 0 <= l < v[r][s].len() implies #[trigger] u[r][s][l]
                == v[r][s][l] by {
                if r == ra && s == sa && l == 0 {
                    assert(u[ra][sa][0] == cell_a);
                } else if r == rb && s == sb && l == 0 {
                    assert(u[rb][sb][0] == cell_b);
                }
            }
        }
    }
    assert(u =~~= v);
}

/// For a character on exactly one key, that key is the last one
/// holding it, so it is the one the scan reports.
pub proof fn lemma_unique_top_last(v: BlueprintView, c: char)
    requires
        unique_top(v, c),
    ensures
        spec_top_pos(v, c) == Some(
            choose|rs: (int, int)| is_last_top(v, c, rs.0, rs.1),
        ),
        is_last_top(
            v,
            c,
            spec_top_pos(v, c)->Some_0.0,
            spec_top_pos(v, c)->Some_0.1,
        ),
        top_is(v, spec_top_pos(v, c)->Some_0.0, spec_top_pos(v, c)->Some_0.1, c),
{
    let (r0, s0) = choose|r: int, s: int| top_is(v, r, s, c);
    assert(top_is(v, r0, s0, c));
    assert(is_last_top(v, c, r0, s0));
    assert(is_last_top(v, c, (r0, s0).0, (r0, s0).1));
    assert(exists|rs: (int, int)| is_last_top(v, c, rs.0, rs.1));
    let rs = choose|rs: (int, int)| is_last_top(v, c, rs.0, rs.1);
}


/// The character has a cell strictly before the frontier `fr` in
/// walking order.
pub open spec fn char_in_before(v: BlueprintView, c: char, fr: Position) -> bool {
    exists|p: Position| cell_is_char(v, p, c) && pos_before(p, fr)
}

/// Like [`selected`], but judged only over the cells strictly before
/// the frontier `fr`.
pub open spec fn selected_before(v: BlueprintView, c: char, p: Position, fr: Position) -> bool {
    &&& cell_is_char(v, p, c)
    &&& pos_before(p, fr)
    &&& forall|q: Position| #[trigger]
        cell_is_char(v, q, c) && pos_before(q, fr) ==> spec_position_cost(p)
            <= spec_position_cost(q)
    &&& forall|q: Position| #[trigger]
        cell_is_char(v, q, c) && pos_before(q, fr) && spec_position_cost(q)
            == spec_position_cost(p) && q != p ==> pos_before(p, q)
}

/// What the four derived tables say after every cell strictly before
/// the frontier `fr` has been walked.
pub open spec fn tables_inv(
    v: BlueprintView,
    fr: Position,
    cp: Seq<(char, Position)>,
    cf: Seq<(char, Finger)>,
    pl: Seq<(Position, bool)>,
    pc: Seq<(Position, String)>,
) -> bool {
    &&& distinct_keys(cp)
    &&& forall|c: char| char_in_before(v, c, fr) <==> (#[trigger] assoc_find(cp, c)).is_some()
    &&& forall|c: char|
        (#[trigger] assoc_find(cp, c)).is_some() ==> selected_before(
            v,
            c,
            assoc_find(cp, c)->Some_0,
            fr,
        )
    &&& cf.len() == cp.len()
    &&& forall|i: int|
        0 <= i < cp.len() ==> (#[trigger] cf[i]) == (
            cp[i].0,
            spec_finger_for(cp[i].1.row as int, cp[i].1.slot as int),
        )
    &&& forall|p: Position|
        (#[trigger] assoc_find(pl, p)) == (if pos_in(v, p) && pos_before(p, fr) {
            Some(spec_pos_is_left(p))
        } else {
            None::<bool>
        })
    &&& forall|p: Position|
        (pos_in(v, p) && pos_before(p, fr)) <==> (#[trigger] assoc_find(pc, p)).is_some()
    &&& forall|p: Position|
        (#[trigger] assoc_find(pc, p)).is_some() ==> assoc_find(pc, p)->Some_0@ == cell_at(v, p)
}

/// Two frontiers with the same cells before them support the same
/// tables.
pub proof fn lemma_tables_inv_frontier(
    v: BlueprintView,
    fa: Position,
    fb: Position,
    cp: Seq<(char, Position)>,
    cf: Seq<(char, Finger)>,
    pl: Seq<(Position, bool)>,
    pc: Seq<(Position, String)>,
)
    requires
        tables_inv(v, fa, cp, cf, pl, pc),
        forall|p: Position| pos_in(v, p) ==> (pos_before(p, fa) <==> #[trigger] pos_before(p, fb)),
    ensures
        tables_inv(v, fb, cp, cf, pl, pc),
{
    assert forall|c: char| char_in_before(v, c, fb) implies (#[trigger] assoc_find(cp, c)).is_some() by {
        let p = choose|p: Position| cell_is_char(v, p, c) && pos_before(p, fb);
        assert(pos_in(v, p));
        assert(cell_is_char(v, p, c) && pos_before(p, fa));
        assert(char_in_before(v, c, fa));
    }
    assert forall|c: char| (#[trigger] assoc_find(cp, c)).is_some() implies char_in_before(v, c, fb) by {
        assert(char_in_before(v, c, fa));
        let p = choose|p: Position| cell_is_char(v, p, c) && pos_before(p, fa);
        assert(pos_in(v, p));
        assert(cell_is_char(v, p, c) && pos_before(p, fb));
    }
    assert forall|c: char| (#[trigger] assoc_find(cp, c)).is_some() implies selected_before(
        v,
        c,
        assoc_find(cp, c)->Some_0,
        fb,
    ) by {
        let p = assoc_find(cp, c)->Some_0;
        assert(selected_before(v, c, p, fa));
        assert(pos_in(v, p));
        assert(pos_before(p, fb));
        assert forall|q: Position| #[trigger]
            cell_is_char(v, q, c) && pos_before(q, fb) implies spec_position_cost(p)
            <= spec_position_cost(q) by {
            assert(pos_in(v, q));
            assert(cell_is_char(v, q, c) && pos_before(q, fa));
        }
        assert forall|q: Position| #[trigger]
            cell_is_char(v, q, c) && pos_before(q, fb) && spec_position_cost(q)
            == spec_position_cost(p) && q != p implies pos_before(p, q) by {
            assert(pos_in(v, q));
            assert(cell_is_char(v, q, c) && pos_before(q, fa));
        }
    }
    assert forall|p: Position| true implies (#[trigger] assoc_find(pl, p)) == (if pos_in(v, p)
        && pos_before(p, fb) {
        Some(spec_pos_is_left(p))
    } else {
        None::<bool>
    }) by {
        if pos_in(v, p) {
            assert(pos_before(p, fa) <==> pos_before(p, fb));
        }
    }
    assert forall|p: Position| (pos_in(v, p) && pos_before(p, fb)) implies (#[trigger] assoc_find(
        pc,
        p,
    )).is_some() by {
        assert(pos_before(p, fa));
    }
    assert forall|p: Position| (#[trigger] assoc_find(pc, p)).is_some() implies (pos_in(v, p)
        && pos_before(p, fb)) by {
        assert(pos_in(v, p) && pos_before(p, fa));
    }
}

/// The derived, read-mostly view of a [`Blueprint`]: where each
/// character sits, which finger types it, and which hand covers each
/// position.
#[derive(Debug)]
pub struct Layout {
    /// The blueprint the caches were derived from.
    pub blueprint: Blueprint,
    /// For each character, the finger that types its selected cell.
    pub char_finger: Vec<(char, Finger)>,
    /// For each character, its selected cell.
    pub char_pos: Vec<(char, Position)>,
    /// For each cell position, whether the left hand covers it.
    pub pos_is_left: Vec<(Position, bool)>,
    /// For each cell position, the text stored there.
    pub pos_char: Vec<(Position, String)>,
}

impl Layout {
    /// The mathematical contents of the stored blueprint.
    pub open spec fn bp(self) -> BlueprintView {
        self.blueprint.deep_view()
    }

    /// The caches agree with the blueprint: every character that
    /// appears in the grid is mapped to its selected cell (cheapest,
    /// first in walking order among equally cheap ones), the finger
    /// table mirrors the position table, and the per-position tables
    /// cover exactly the grid.
    pub open spec fn wf(self) -> bool {
        &&& shape_ok(self.bp())
        &&& distinct_keys(self.char_pos@)
        &&& forall|c: char|
            char_in(self.bp(), c) <==> (#[trigger] assoc_find(self.char_pos@, c)).is_some()
        &&& forall|c: char|
            (#[trigger] assoc_find(self.char_pos@, c)).is_some() ==> selected(
                self.bp(),
                c,
                assoc_find(self.char_pos@, c)->Some_0,
            )
        &&& self.char_finger@.len() == self.char_pos@.len()
        &&& forall|i: int|
            0 <= i < self.char_pos@.len() ==> (#[trigger] self.char_finger@[i]) == (
                self.char_pos@[i].0,
                spec_finger_for(
                    self.char_pos@[i].1.row as int,
                    self.char_pos@[i].1.slot as int,
                ),
            )
        &&& forall|p: Position|
            (#[trigger] assoc_find(self.pos_is_left@, p)) == (if pos_in(self.bp(), p) {
                Some(spec_pos_is_left(p))
            } else {
                None::<bool>
            })
        &&& forall|p: Position|
            pos_in(self.bp(), p) <==> (#[trigger] assoc_find(self.pos_char@, p)).is_some()
        &&& forall|p: Position|
            (#[trigger] assoc_find(self.pos_char@, p)).is_some() ==> assoc_find(
                self.pos_char@,
                p,
            )->Some_0@ == cell_at(self.bp(), p)
    }

    /// Effort of one keystroke at `pos`: the base cost of its key plus
    /// the surcharge of its layer. A pure table lookup: equal positions
    /// always yield the equal cost.
    pub fn single_key_position_cost(pos: Position) -> (c: u8)
        requires
            pos_ok(pos),
        ensures
            c == spec_position_cost(pos),
    {
        key_base_cost(pos.row, pos.slot) + layer_cost(pos.layer)
    }

    /// Whether moving a character from `old_pos` to `new_pos` strictly
    /// lowers its keystroke effort.
    pub fn is_position_cost_lower(old_pos: Position, new_pos: Position) -> (r: bool)
        requires
            pos_ok(old_pos),
            pos_ok(new_pos),
        ensures
            r == (spec_position_cost(new_pos) < spec_position_cost(old_pos)),
    {
        let old_cost = Self::single_key_position_cost(old_pos);
        let new_cost = Self::single_key_position_cost(new_pos);
        new_cost < old_cost
    }

    /// The selected cell of `c`, if the character appears in the grid.
    pub fn char_position(&self, c: char) -> (r: Option<Position>)
        ensures
            r == assoc_find(self.char_pos@, c),
    {
        crate::assoc::find_by_char(&self.char_pos, c)
    }

    /// The finger that types `c`, if the character appears in the grid.
    pub fn char_finger_of(&self, c: char) -> (r: Option<Finger>)
        ensures
            r == assoc_find(self.char_finger@, c),
    {
        crate::assoc::find_by_char(&self.char_finger, c)
    }

    /// Whether the left hand covers `p`, if `p` lies in the grid.
    pub fn position_is_left(&self, p: Position) -> (r: Option<bool>)
        ensures
            r == assoc_find(self.pos_is_left@, p),
    {
        crate::assoc::find_by_pos(&self.pos_is_left, p)
    }

    /// Builds the derived caches by walking every cell once in
    /// row-major, slot-major, layer-major order. A character that
    /// appears in several cells keeps the cell whose position cost
    /// plus layer cost is lowest, the first-walked cell winning exact
    /// ties. Pure: equal blueprints yield equal layouts.
    pub fn from_blueprint(blueprint: Blueprint) -> (r: Layout)
        requires
            shape_ok(blueprint.deep_view()),
        ensures
            r.wf(),
            r.blueprint == blueprint,
    {
        let ghost v = blueprint.deep_view();
        let mut char_finger: Vec<(char, Finger)> = Vec::new();
        let mut char_pos: Vec<(char, Position)> = Vec::new();
        let mut pos_is_left: Vec<(Position, bool)> = Vec::new();
        let mut pos_char: Vec<(Position, String)> = Vec::new();

        let mut ri: usize = 0;
        while ri < blueprint.len()
            invariant
                ri <= blueprint.len(),
                v == blueprint.deep_view(),
                v.len() == blueprint@.len(),
                shape_ok(v),
                tables_inv(
                    v,
                    Position { row: ri, slot: 0, layer: 0 },
                    char_pos@,
                    char_finger@,
                    pos_is_left@,
                    pos_char@,
                ),
            decreases blueprint.len() - ri,
        {
            let rh = right_hand_lowest(ri);
            let row_len: usize = blueprint[ri].len();
            proof {
                assert(v[ri as int] == blueprint@[ri as int].deep_view());
            }
            let mut si: usize = 0;
            while si < row_len
                invariant
                    ri < blueprint@.len(),
                    si <= row_len,
                    v == blueprint.deep_view(),
                    v.len() == blueprint@.len(),
                    shape_ok(v),
                    row_len == v[ri as int].len(),
                    rh == spec_right_hand_lowest(ri as int),
                    tables_inv(
                        v,
                        Position { row: ri, slot: si, layer: 0 },
                        char_pos@,
                        char_finger@,
                        pos_is_left@,
                        pos_char@,
                    ),
                decreases row_len - si,
            {
                let key_len: usize = blueprint[ri][si].len();
                proof {
                    assert(v[ri as int][si as int] == blueprint@[ri as int]@[si as int].deep_view());
                }
                let mut li: usize = 0;
                while li < key_len
                    invariant
                        ri < blueprint@.len(),
                        si < v[ri as int].len(),
                        li <= key_len,
                        v == blueprint.deep_view(),
                        v.len() == blueprint@.len(),
                        shape_ok(v),
                        rh == spec_right_hand_lowest(ri as int),
                        key_len == v[ri as int][si as int].len(),
                        tables_inv(
                            v,
                            Position { row: ri, slot: si, layer: li },
                            char_pos@,
                            char_finger@,
                            pos_is_left@,
                            pos_char@,
                        ),
                    decreases key_len - li,
                {
                    let p = Position { row: ri, slot: si, layer: li };
                    let ghost fr = p;
                    let ghost nx = Position { row: ri, slot: si, layer: (li + 1) as usize };
                    proof {
                        assert(v[ri as int][si as int][li as int] == blueprint@[ri as int]@[si as int]@[li as int]@);
                        assert(pos_in(v, p));
                        assert(!pos_before(p, fr));
                        assert(forall|q: Position|
                            pos_before(q, nx) <==> (pos_before(q, fr) || q == p));
                    }
                    let cell: &String = &blueprint[ri][si][li];
                    let is_left: bool = si < rh;

                    // The two per-position tables get one entry per cell.
                    let ghost pl0 = pos_is_left@;
                    pos_is_left.push((p, is_left));
                    proof {
                        assert forall|q: Position| true implies (#[trigger] assoc_find(
                            pos_is_left@,
                            q,
                        )) == (if pos_in(v, q) && pos_before(q, nx) {
                            Some(spec_pos_is_left(q))
                        } else {
                            None::<bool>
                        }) by {
                            lemma_assoc_find_push(pl0, p, is_left, q);
                        }
                    }
                    let ghost pc0 = pos_char@;
                    let cell_copy = cell.clone();
                    pos_char.push((p, cell_copy));
                    proof {
                        assert forall|q: Position| true implies ((pos_in(v, q) && pos_before(
                            q,
                            nx,
                        )) <==> (#[trigger] assoc_find(pos_char@, q)).is_some()) by {
                            lemma_assoc_find_push(pc0, p, *cell, q);
                            assert(pos_char@ == pc0.push((p, *cell)));
                        }
                        assert forall|q: Position| (#[trigger] assoc_find(pos_char@, q)).is_some()
                            implies assoc_find(pos_char@, q)->Some_0@ == cell_at(v, q) by {
                            lemma_assoc_find_push(pc0, p, *cell, q);
                        }
                    }

                    // The two per-character tables follow the selection rule.
                    let cell_char_len = cell.as_str().unicode_len();
                    if cell_char_len == 1 {
                        let c = cell.as_str().get_char(0);
                        proof {
                            assert(cell_at(v, p).len() == 1);
                            assert(cell_at(v, p)[0] == c);
                            assert(cell_is_char(v, p, c));
                        }
                        let ghost cp0 = char_pos@;
                        let ghost cf0 = char_finger@;
                        match crate::assoc::find_index_by_char(&char_pos, c) {
                            None => {
                                let f = finger_for(ri, si);
                                char_pos.push((c, p));
                                char_finger.push((c, f));
                                proof {
                                    crate::assoc::lemma_assoc_find_none_no_key(cp0, c);
                                    assert(distinct_keys(char_pos@));
                                    assert forall|c2: char| char_in_before(v, c2, nx) implies (
                                    #[trigger] assoc_find(char_pos@, c2)).is_some() by {
                                        lemma_assoc_find_push(cp0, c, p, c2);
                                        if c2 != c {
                                            let q = choose|q: Position|
                                                cell_is_char(v, q, c2) && pos_before(q, nx);
                                            assert(q != p);
                                            assert(pos_before(q, fr));
                                            assert(char_in_before(v, c2, fr));
                                        }
                                    }
                                    assert forall|c2: char| (#[trigger] assoc_find(
                                        char_pos@,
                                        c2,
                                    )).is_some() implies char_in_before(v, c2, nx) by {
                                        lemma_assoc_find_push(cp0, c, p, c2);
                                        if c2 == c && assoc_find(cp0, c2).is_none() {
                                            assert(cell_is_char(v, p, c2) && pos_before(p, nx));
                                        } else {
                                            assert(assoc_find(cp0, c2).is_some());
                                            assert(char_in_before(v, c2, fr));
                                            let q = choose|q: Position|
                                                cell_is_char(v, q, c2) && pos_before(q, fr);
                                            assert(cell_is_char(v, q, c2) && pos_before(q, nx));
                                        }
                                    }
                                    assert forall|c2: char| (#[trigger] assoc_find(
                                        char_pos@,
                                        c2,
                                    )).is_some() implies selected_before(
                                        v,
                                        c2,
                                        assoc_find(char_pos@, c2)->Some_0,
                                        nx,
                                    ) by {
                                        lemma_assoc_find_push(cp0, c, p, c2);
                                        if c2 == c {
                                            assert(assoc_find(char_pos@, c2) == Some(p));
                                            assert forall|q: Position| #[trigger]
                                                cell_is_char(v, q, c) && pos_before(q, nx) implies q
                                                == p by {
                                                if q != p {
                                                    assert(pos_before(q, fr));
                                                    assert(char_in_before(v, c, fr));
                                                }
                                            }
                                            assert(selected_before(v, c, p, nx));
                                        } else {
                                            assert(assoc_find(char_pos@, c2) == assoc_find(
                                                cp0,
                                                c2,
                                            ));
                                            let w = assoc_find(cp0, c2)->Some_0;
                                            assert(selected_before(v, c2, w, fr));
                                            assert forall|q: Position| #[trigger]
                                                cell_is_char(v, q, c2) && pos_before(q, nx) implies
                                                spec_position_cost(w) <= spec_position_cost(q) by {
                                                assert(q != p);
                                                assert(pos_before(q, fr));
                                            }
                                            assert forall|q: Position| #[trigger]
                                                cell_is_char(v, q, c2) && pos_before(q, nx)
                                                && spec_position_cost(q) == spec_position_cost(w)
                                                && q != w implies pos_before(w, q) by {
                                                assert(q != p);
                                                assert(pos_before(q, fr));
                                            }
                                            assert(selected_before(v, c2, w, nx));
                                        }
                                    }
                                    assert(char_finger@ == cf0.push(
                                        (c, spec_finger_for(ri as int, si as int)),
                                    ));
                                }
                            },
                            Some(ix) => {
                                let old_pos: Position = char_pos[ix].1;
                                proof {
                                    assert(assoc_find(cp0, c) == Some(old_pos));
                                    assert(selected_before(v, c, old_pos, fr));
                                    assert(pos_in(v, old_pos));
                                    assert(pos_ok(old_pos));
                                    assert(pos_ok(p));
                                }
                                if Self::is_position_cost_lower(old_pos, p) {
                                    let f = finger_for(ri, si);
                                    char_pos.set(ix, (c, p));
                                    char_finger.set(ix, (c, f));
                                    proof {
                                        assert(cp0[ix as int].0 == c);
                                        assert(char_pos@ == cp0.update(ix as int, (c, p)));
                                        assert(char_finger@ == cf0.update(
                                            ix as int,
                                            (c, spec_finger_for(ri as int, si as int)),
                                        ));
                                        assert(distinct_keys(char_pos@)) by {
                                            assert(forall|i: int|
                                                0 <= i < char_pos@.len() ==> (#[trigger] char_pos@[i]).0
                                                    == cp0[i].0);
                                        }
                                        assert forall|c2: char| true implies (#[trigger] assoc_find(
                                            char_pos@,
                                            c2,
                                        )) == (if c2 == c {
                                            Some(p)
                                        } else {
                                            assoc_find(cp0, c2)
                                        }) by {
                                            lemma_assoc_find_update(cp0, ix as int, p, c2);
                                        }
                                        assert forall|c2: char| char_in_before(v, c2, nx) implies (
                                        #[trigger] assoc_find(char_pos@, c2)).is_some() by {
                                            if c2 != c {
                                                let q = choose|q: Position|
                                                    cell_is_char(v, q, c2) && pos_before(q, nx);
                                                assert(q != p);
                                                assert(pos_before(q, fr));
                                                assert(char_in_before(v, c2, fr));
                                            }
                                        }
                                        assert forall|c2: char| (#[trigger] assoc_find(
                                            char_pos@,
                                            c2,
                                        )).is_some() implies char_in_before(v, c2, nx) by {
                                            if c2 == c {
                                                assert(cell_is_char(v, p, c) && pos_before(p, nx));
                                            } else {
                                                assert(char_in_before(v, c2, fr));
                                                let q = choose|q: Position|
                                                    cell_is_char(v, q, c2) && pos_before(q, fr);
                                                assert(cell_is_char(v, q, c2) && pos_before(q, nx));
                                            }
                                        }
                                        assert forall|c2: char| (#[trigger] assoc_find(
                                            char_pos@,
                                            c2,
                                        )).is_some() implies selected_before(
                                            v,
                                            c2,
                                            assoc_find(char_pos@, c2)->Some_0,
                                            nx,
                                        ) by {
                                            if c2 == c {
                                                assert forall|q: Position| #[trigger]
                                                    cell_is_char(v, q, c) && pos_before(q, nx)
                                                    implies spec_position_cost(p)
                                                    <= spec_position_cost(q) by {
                                                    if q != p {
                                                        assert(pos_before(q, fr));
                                                        assert(spec_position_cost(old_pos)
                                                            <= spec_position_cost(q));
                                                    }
                                                }
                                                assert forall|q: Position| #[trigger]
                                                    cell_is_char(v, q, c) && pos_before(q, nx)
                                                    && spec_position_cost(q) == spec_position_cost(
                                                    p,
                                                ) && q != p implies pos_before(p, q) by {
                                                    assert(pos_before(q, fr));
                                                    assert(spec_position_cost(old_pos)
                                                        <= spec_position_cost(q));
                                                    assert(false);
                                                }
                                                assert(selected_before(v, c, p, nx));
                                            } else {
                                                let w = assoc_find(cp0, c2)->Some_0;
                                                assert(selected_before(v, c2, w, fr));
                                                assert forall|q: Position| #[trigger]
                                                    cell_is_char(v, q, c2) && pos_before(q, nx)
                                                    implies spec_position_cost(w)
                                                    <= spec_position_cost(q) by {
                                                    assert(q != p);
                                                    assert(pos_before(q, fr));
                                                }
                                                assert forall|q: Position| #[trigger]
                                                    cell_is_char(v, q, c2) && pos_before(q, nx)
                                                    && spec_position_cost(q) == spec_position_cost(
                                                    w,
                                                ) && q != w implies pos_before(w, q) by {
                                                    assert(q != p);
                                                    assert(pos_before(q, fr));
                                                }
                                                assert(selected_before(v, c2, w, nx));
                                            }
                                        }
                                    }
                                } else {
                                    proof {
                                        assert(spec_position_cost(p) >= spec_position_cost(
                                            old_pos,
                                        ));
                                        assert forall|c2: char| char_in_before(v, c2, nx) implies (
                                        #[trigger] assoc_find(char_pos@, c2)).is_some() by {
                                            if c2 != c {
                                                let q = choose|q: Position|
                                                    cell_is_char(v, q, c2) && pos_before(q, nx);
                                                assert(q != p);
                                                assert(pos_before(q, fr));
                                                assert(char_in_before(v, c2, fr));
                                            }
                                        }
                                        assert forall|c2: char| (#[trigger] assoc_find(
                                            char_pos@,
                                            c2,
                                        )).is_some() implies char_in_before(v, c2, nx) by {
                                            assert(char_in_before(v, c2, fr));
                                            let q = choose|q: Position|
                                                cell_is_char(v, q, c2) && pos_before(q, fr);
                                            assert(cell_is_char(v, q, c2) && pos_before(q, nx));
                                        }
                                        assert forall|c2: char| (#[trigger] assoc_find(
                                            char_pos@,
                                            c2,
                                        )).is_some() implies selected_before(
                                            v,
                                            c2,
                                            assoc_find(char_pos@, c2)->Some_0,
                                            nx,
                                        ) by {
                                            let w = assoc_find(char_pos@, c2)->Some_0;
                                            assert(selected_before(v, c2, w, fr));
                                            if c2 == c {
                                                assert(w == old_pos);
                                                assert forall|q: Position| #[trigger]
                                                    cell_is_char(v, q, c) && pos_before(q, nx)
                                                    implies spec_position_cost(w)
                                                    <= spec_position_cost(q) by {
                                                    if q == p {
                                                        assert(spec_position_cost(p)
                                                            >= spec_position_cost(old_pos));
                                                    } else {
                                                        assert(pos_before(q, fr));
                                                    }
                                                }
                                                assert forall|q: Position| #[trigger]
                                                    cell_is_char(v, q, c) && pos_before(q, nx)
                                                    && spec_position_cost(q) == spec_position_cost(
                                                    w,
                                                ) && q != w implies pos_before(w, q) by {
                                                    if q == p {
                                                        assert(pos_before(w, fr));
                                                        assert(pos_before(w, p));
                                                    } else {
                                                        assert(pos_before(q, fr));
                                                    }
                                                }
                                                assert(selected_before(v, c, w, nx));
                                            } else {
                                                assert forall|q: Position| #[trigger]
                                                    cell_is_char(v, q, c2) && pos_before(q, nx)
                                                    implies spec_position_cost(w)
                                                    <= spec_position_cost(q) by {
                                                    assert(q != p);
                                                    assert(pos_before(q, fr));
                                                }
                                                assert forall|q: Position| #[trigger]
                                                    cell_is_char(v, q, c2) && pos_before(q, nx)
                                                    && spec_position_cost(q) == spec_position_cost(
                                                    w,
                                                ) && q != w implies pos_before(w, q) by {
                                                    assert(q != p);
                                                    assert(pos_before(q, fr));
                                                }
                                                assert(selected_before(v, c2, w, nx));
                                            }
                                        }
                                    }
                                }
                            },
                        }
                    } else {
                        proof {
                            assert(cell_at(v, p).len() != 1);
                            assert forall|c2: char| char_in_before(v, c2, nx) implies (
                            #[trigger] assoc_find(char_pos@, c2)).is_some() by {
                                let q = choose|q: Position|
                                    cell_is_char(v, q, c2) && pos_before(q, nx);
                                assert(q != p);
                                assert(pos_before(q, fr));
                                assert(char_in_before(v, c2, fr));
                            }
                            assert forall|c2: char| (#[trigger] assoc_find(char_pos@, c2)).is_some()
                                implies char_in_before(v, c2, nx) by {
                                assert(char_in_before(v, c2, fr));
                                let q = choose|q: Position|
                                    cell_is_char(v, q, c2) && pos_before(q, fr);
                                assert(cell_is_char(v, q, c2) && pos_before(q, nx));
                            }
                            assert forall|c2: char| (#[trigger] assoc_find(char_pos@, c2)).is_some()
                                implies selected_before(
                                v,
                                c2,
                                assoc_find(char_pos@, c2)->Some_0,
                                nx,
                            ) by {
                                let w = assoc_find(char_pos@, c2)->Some_0;
                                assert(selected_before(v, c2, w, fr));
                                assert forall|q: Position| #[trigger]
                                    cell_is_char(v, q, c2) && pos_before(q, nx) implies
                                    spec_position_cost(w) <= spec_position_cost(q) by {
                                    assert(q != p);
                                    assert(pos_before(q, fr));
                                }
                                assert forall|q: Position| #[trigger]
                                    cell_is_char(v, q, c2) && pos_before(q, nx)
                                    && spec_position_cost(q) == spec_position_cost(w) && q != w
                                    implies pos_before(w, q) by {
                                    assert(q != p);
                                    assert(pos_before(q, fr));
                                }
                                assert(selected_before(v, c2, w, nx));
                            }
                        }
                    }
                    proof {
                        assert(tables_inv(v, nx, char_pos@, char_finger@, pos_is_left@, pos_char@));
                    }
                    li += 1;
                }
                proof {
                    let fa = Position { row: ri, slot: si, layer: key_len };
                    let fb = Position { row: ri, slot: (si + 1) as usize, layer: 0 };
                    assert forall|q: Position| pos_in(v, q) implies (pos_before(q, fa) <==> #[trigger] pos_before(
                        q,
                        fb,
                    )) by {
                        if q.row == ri && q.slot == si {
                            assert(q.layer < v[ri as int][si as int].len());
                        }
                    }
                    lemma_tables_inv_frontier(
                        v,
                        fa,
                        fb,
                        char_pos@,
                        char_finger@,
                        pos_is_left@,
                        pos_char@,
                    );
                }
                si += 1;
            }
            proof {
                let fa = Position { row: ri, slot: row_len, layer: 0 };
                let fb = Position { row: (ri + 1) as usize, slot: 0, layer: 0 };
                assert forall|q: Position| pos_in(v, q) implies (pos_before(q, fa) <==> #[trigger] pos_before(
                    q,
                    fb,
                )) by {
                    if q.row == ri {
                        assert(q.slot < v[ri as int].len());
                    }
                }
                lemma_tables_inv_frontier(
                    v,
                    fa,
                    fb,
                    char_pos@,
                    char_finger@,
                    pos_is_left@,
                    pos_char@,
                );
            }
            ri += 1;
        }
        proof {
            let fin = Position { row: blueprint.len(), slot: 0, layer: 0 };
            assert forall|q: Position| pos_in(v, q) implies #[trigger] pos_before(q, fin) by {
                assert(q.row < v.len());
            }
            assert forall|c: char| char_in(v, c) implies char_in_before(v, c, fin) by {
                let q = choose|q: Position| cell_is_char(v, q, c);
                assert(cell_is_char(v, q, c) && pos_before(q, fin));
            }
            assert forall|c: char| (#[trigger] assoc_find(char_pos@, c)).is_some() implies selected(
                v,
                c,
                assoc_find(char_pos@, c)->Some_0,
            ) by {
                let w = assoc_find(char_pos@, c)->Some_0;
                assert(selected_before(v, c, w, fin));
                assert forall|q: Position| #[trigger] cell_is_char(v, q, c) implies
                    spec_position_cost(w) <= spec_position_cost(q) by {
                    assert(pos_before(q, fin));
                }
                assert forall|q: Position| #[trigger]
                    cell_is_char(v, q, c) && spec_position_cost(q) == spec_position_cost(w) && q
                    != w implies pos_before(w, q) by {
                    assert(pos_before(q, fin));
                }
            }
        }
        Layout {
            blueprint,
            char_finger,
            char_pos,
            pos_is_left,
            pos_char,
        }
    }
}


/// What one swap does to the grid: the two characters trade keys, no
/// other cell moves, and no length changes.
pub proof fn lemma_swap_cells(v: BlueprintView, a: char, b: char)
    requires
        a != b,
        unique_top(v, a),
        unique_top(v, b),
    ensures
        ({
            let w = spec_apply_swap(v, a, b);
            &&& w.len() == v.len()
            &&& forall|r: int| 0 <= r < v.len() ==> (#[trigger] w[r]).len() == v[r].len()
            &&& forall|r: int, s: int|
                0 <= r < v.len() && 0 <= s < v[r].len() ==> (#[trigger] w[r][s]).len()
                    == v[r][s].len()
            &&& forall|r: int, s: int| #[trigger]
                top_is(w, r, s, a) <==> #[trigger] top_is(v, r, s, b)
            &&& forall|r: int, s: int| #[trigger]
                top_is(w, r, s, b) <==> #[trigger] top_is(v, r, s, a)
            &&& forall|r: int, s: int, c: char|
                c != a && c != b ==> (#[trigger] top_is(w, r, s, c) <==> top_is(v, r, s, c))
        }),
{
    let pa = choose|rs: (int, int)| is_last_top(v, a, rs.0, rs.1);
    let pb = choose|rs: (int, int)| is_last_top(v, b, rs.0, rs.1);
    lemma_unique_top_last(v, a);
    lemma_unique_top_last(v, b);
    let ra = pa.0;
    let sa = pa.1;
    let rb = pb.0;
    let sb = pb.1;
    let cell_a = v[ra][sa][0];
    let cell_b = v[rb][sb][0];
    assert((ra, sa) != (rb, sb));
    let w = spec_apply_swap(v, a, b);
    assert(w == set_top_view(set_top_view(v, ra, sa, cell_b), rb, sb, cell_a));
    assert(w.len() == v.len());
    assert(forall|r: int| 0 <= r < v.len() ==> (#[trigger] w[r]).len() == v[r].len());
    assert(forall|r: int, s: int|
        0 <= r < v.len() && 0 <= s < v[r].len() ==> (#[trigger] w[r][s]).len() == v[r][s].len());
    assert(forall|r: int, s: int, l: int|
        0 <= r < v.len() && 0 <= s < v[r].len() && 0 <= l < v[r][s].len() && !(r == ra && s == sa
            && l == 0) && !(r == rb && s == sb && l == 0) ==> #[trigger] w[r][s][l] == v[r][s][l]);
    assert(w[ra][sa][0] == cell_b);
    assert(w[rb][sb][0] == cell_a);
    assert forall|r: int, s: int| #[trigger] top_is(w, r, s, a) implies top_is(v, r, s, b) by {
        if r == ra && s == sa {
            assert(w[ra][sa][0][0] == b);
            assert(false);
        } else if !(r == rb && s == sb) {
            assert(top_is(v, r, s, a));
            assert(r == ra && s == sa);
        }
    }
    assert forall|r: int, s: int| #[trigger] top_is(v, r, s, b) implies top_is(w, r, s, a) by {
        assert(r == rb && s == sb);
        assert(top_is(w, rb, sb, a));
    }
    assert forall|r: int, s: int| #[trigger] top_is(w, r, s, b) implies top_is(v, r, s, a) by {
        if r == rb && s == sb {
            assert(w[rb][sb][0][0] == a);
            assert(false);
        } else if !(r == ra && s == sa) {
            assert(top_is(v, r, s, b));
            assert(r == rb && s == sb);
        }
    }
    assert forall|r: int, s: int| #[trigger] top_is(v, r, s, a) implies top_is(w, r, s, b) by {
        assert(r == ra && s == sa);
        assert(top_is(w, ra, sa, b));
    }
    assert forall|r: int, s: int, c: char|
        c != a && c != b && #[trigger] top_is(w, r, s, c) implies top_is(v, r, s, c) by {
        if r == ra && s == sa {
            assert(w[ra][sa][0][0] == b);
            assert(false);
        } else if r == rb && s == sb {
            assert(w[rb][sb][0][0] == a);
            assert(false);
        }
    }
    assert forall|r: int, s: int, c: char|
        c != a && c != b && #[trigger] top_is(v, r, s, c) implies top_is(w, r, s, c) by {
        if r == ra && s == sa {
            assert(v[ra][sa][0][0] == a);
            assert(false);
        } else if r == rb && s == sb {
            assert(v[rb][sb][0][0] == b);
            assert(false);
        }
    }
}

/// A swap of two characters of the grid keeps the geometry and keeps
/// every uniquely placed character uniquely placed.
pub proof fn lemma_swap_keeps_unique(v: BlueprintView, a: char, b: char, c: char)
    requires
        unique_top(v, a),
        unique_top(v, b),
        unique_top(v, c),
        shape_ok(v),
    ensures
        shape_ok(spec_apply_swap(v, a, b)),
        unique_top(spec_apply_swap(v, a, b), c),
{
    if a == b {
    } else {
        lemma_swap_cells(v, a, b);
        let w = spec_apply_swap(v, a, b);
        assert(shape_ok(w));
        if c == a {
            let pb = choose|rs: (int, int)| is_last_top(v, b, rs.0, rs.1);
            lemma_unique_top_last(v, b);
            assert(top_is(v, pb.0, pb.1, b));
            assert(top_is(w, pb.0, pb.1, a));
            assert forall|r1: int, s1: int, r2: int, s2: int|
                #[trigger] top_is(w, r1, s1, c) && #[trigger] top_is(w, r2, s2, c) implies r1 == r2
                && s1 == s2 by {
                assert(top_is(v, r1, s1, b));
                assert(top_is(v, r2, s2, b));
            }
        } else if c == b {
            let pa = choose|rs: (int, int)| is_last_top(v, a, rs.0, rs.1);
            lemma_unique_top_last(v, a);
            assert(top_is(v, pa.0, pa.1, a));
            assert(top_is(w, pa.0, pa.1, b));
            assert forall|r1: int, s1: int, r2: int, s2: int|
                #[trigger] top_is(w, r1, s1, c) && #[trigger] top_is(w, r2, s2, c) implies r1 == r2
                && s1 == s2 by {
                assert(top_is(v, r1, s1, a));
                assert(top_is(v, r2, s2, a));
            }
        } else {
            let pc = choose|r: int, s: int| top_is(v, r, s, c);
            assert(top_is(v, pc.0, pc.1, c));
            assert(top_is(w, pc.0, pc.1, c));
            assert forall|r1: int, s1: int, r2: int, s2: int|
                #[trigger] top_is(w, r1, s1, c) && #[trigger] top_is(w, r2, s2, c) implies r1 == r2
                && s1 == s2 by {
                assert(top_is(v, r1, s1, c));
                assert(top_is(v, r2, s2, c));
            }
        }
    }
}


/// What parsing a nested-array layout text yields; a name for the
/// result of serde_json's parser, which depends on the text alone.
pub uninterp spec fn json_blueprint_of(s: Seq<char>) -> Option<BlueprintView>;

#[verifier::external_type_specification]
#[verifier::external_body]
pub struct ExSerdeJsonError(serde_json::Error);

/// Relies on serde_json::from_str: parses a text of nested arrays of
/// strings into rows of keys of layers, failing on anything else.
#[verifier::external_body]
fn parse_blueprint_json(text: &str) -> (r: Result<Blueprint, serde_json::Error>)
    ensures
        match r {
            Ok(bp) => json_blueprint_of(text@) == Some(bp.deep_view()),
            Err(_) => json_blueprint_of(text@) == None::<BlueprintView>,
        },
{
    serde_json::from_str(text)
}

/// Relies on std's `char::to_string`: the one-character string of `c`.
#[verifier::external_body]
fn char_to_string(c: char) -> (r: String)
    ensures
        r@ == seq![c],
{
    c.to_string()
}

/// Checks that a blueprint fits the device geometry.
pub fn check_blueprint_shape(bp: &Blueprint) -> (r: bool)
    ensures
        r == shape_ok(bp.deep_view()),
{
    let ghost v = bp.deep_view();
    if bp.len() > ROW_COUNT {
        return false;
    }
    let mut ri: usize = 0;
    while ri < bp.len()
        invariant
            ri <= bp.len(),
            v == bp.deep_view(),
            v.len() == bp@.len(),
            v.len() <= ROW_COUNT,
            forall|r: int| 0 <= r < ri ==> #[trigger] v[r].len() <= spec_row_width(r),
            forall|r: int, s: int|
                0 <= r < ri && 0 <= s < v[r].len() ==> #[trigger] v[r][s].len() <= LAYER_COUNT,
        decreases bp.len() - ri,
    {
        proof {
            assert(v[ri as int] == bp@[ri as int].deep_view());
        }
        if bp[ri].len() > row_width(ri) {
            return false;
        }
        let mut si: usize = 0;
        while si < bp[ri].len()
            invariant
                ri < bp.len(),
                si <= bp@[ri as int]@.len(),
                v == bp.deep_view(),
                v.len() == bp@.len(),
                v[ri as int].len() == bp@[ri as int]@.len(),
                forall|s: int| 0 <= s < si ==> #[trigger] v[ri as int][s].len() <= LAYER_COUNT,
            decreases bp@[ri as int]@.len() - si,
        {
            proof {
                assert(v[ri as int][si as int] == bp@[ri as int]@[si as int].deep_view());
            }
            if bp[ri][si].len() > LAYER_COUNT {
                return false;
            }
            si += 1;
        }
        ri += 1;
    }
    true
}

/// The character the built-in reference layout puts at (row, slot) of
/// the first layer, or nothing where the key starts out blank.
pub open spec fn spec_default_cell(row: int, slot: int) -> Seq<char> {
    if row == 0 && 1 <= slot <= 10 {
        seq!["1234567890"@[slot - 1]]
    } else if row == 1 && 1 <= slot <= 11 {
        seq!["xvlcwkhgfq\u{df}"@[slot - 1]]
    } else if row == 2 && 1 <= slot <= 11 {
        seq!["uiaeosnrtdy"@[slot - 1]]
    } else if row == 3 && 1 <= slot <= 10 {
        seq!["\u{fc}\u{f6}\u{e4}pzbm,.j"@[slot - 1]]
    } else if row == 4 && slot == 3 {
        seq![' ']
    } else {
        Seq::empty()
    }
}

/// The built-in reference layout: the device geometry with digits on
/// the top row, the reference letter rows beneath, and space on the
/// thumb row; every key carries a single layer.
/// The blueprint is the built-in reference layout.
pub open spec fn is_default_view(v: BlueprintView) -> bool {
    &&& v.len() == 5
    &&& forall|row: int| 0 <= row < 5 ==> #[trigger] v[row].len() == spec_row_width(row)
    &&& forall|row: int, slot: int|
        0 <= row < 5 && 0 <= slot < spec_row_width(row) ==> #[trigger] v[row][slot] == seq![
            spec_default_cell(row, slot),
        ]
}

pub fn default_blueprint() -> (r: Blueprint)
    ensures
        shape_ok(r.deep_view()),
        is_default_view(r.deep_view()),
{
    let digits = "1234567890";
    let letters1 = "xvlcwkhgfq\u{df}";
    let letters2 = "uiaeosnrtdy";
    let letters3 = "\u{fc}\u{f6}\u{e4}pzbm,.j";
    proof {
        reveal_strlit("1234567890");
        reveal_strlit("xvlcwkhgfq\u{df}");
        reveal_strlit("uiaeosnrtdy");
        reveal_strlit("\u{fc}\u{f6}\u{e4}pzbm,.j");
    }
    let mut bp: Blueprint = Vec::new();
    let mut row: usize = 0;
    while row < 5
        invariant
            row <= 5,
            digits@ == "1234567890"@,
            letters1@ == "xvlcwkhgfq\u{df}"@,
            letters2@ == "uiaeosnrtdy"@,
            letters3@ == "\u{fc}\u{f6}\u{e4}pzbm,.j"@,
            digits@.len() == 10,
            letters1@.len() == 11,
            letters2@.len() == 11,
            letters3@.len() == 10,
            bp@.len() == row,
            forall|r2: int| 0 <= r2 < row ==> #[trigger] bp.deep_view()[r2].len()
                == spec_row_width(r2),
            forall|r2: int, s2: int|
                0 <= r2 < row && 0 <= s2 < spec_row_width(r2) ==> #[trigger] bp.deep_view(
                )[r2][s2] =~~= seq![spec_default_cell(r2, s2)],
        decreases 5 - row,
    {
        let width = row_width(row);
        let mut keys: Row = Vec::new();
        let mut slot: usize = 0;
        while slot < width
            invariant
                row < 5,
                slot <= width,
                width == spec_row_width(row as int),
                digits@ == "1234567890"@,
                letters1@ == "xvlcwkhgfq\u{df}"@,
                letters2@ == "uiaeosnrtdy"@,
                letters3@ == "\u{fc}\u{f6}\u{e4}pzbm,.j"@,
                digits@.len() == 10,
                letters1@.len() == 11,
                letters2@.len() == 11,
                letters3@.len() == 10,
                keys@.len() == slot,
                forall|s2: int|
                    0 <= s2 < slot ==> #[trigger] keys.deep_view()[s2] =~~= seq![
                        spec_default_cell(row as int, s2),
                    ],
            decreases width - slot,
        {
            let cell: String = if row == 0 && 1 <= slot && slot <= 10 {
                char_to_string(digits.get_char(slot - 1))
            } else if row == 1 && 1 <= slot && slot <= 11 {
                char_to_string(letters1.get_char(slot - 1))
            } else if row == 2 && 1 <= slot && slot <= 11 {
                char_to_string(letters2.get_char(slot - 1))
            } else if row == 3 && 1 <= slot && slot <= 10 {
                char_to_string(letters3.get_char(slot - 1))
            } else if row == 4 && slot == 3 {
                char_to_string(' ')
            } else {
                String::new()
            };
            proof {
                assert(cell@ == spec_default_cell(row as int, slot as int));
            }
            let mut key: Key = Vec::new();
            key.push(cell);
            let ghost kpre = keys@;
            let ghost kdv = keys.deep_view();
            let ghost key_snapshot = key@;
            keys.push(key);
            proof {
                assert(key_snapshot.len() == 1);
                assert forall|s2: int| 0 <= s2 <= slot implies #[trigger] keys.deep_view()[s2]
                    =~~= seq![spec_default_cell(row as int, s2)] by {
                    if s2 < slot {
                        assert(kdv[s2] =~~= seq![spec_default_cell(row as int, s2)]);
                        assert(keys@[s2] == kpre[s2]);
                        assert(keys.deep_view()[s2] == keys@[s2].deep_view());
                        assert(kdv[s2] == kpre[s2].deep_view());
                    } else {
                        assert(keys.deep_view()[s2] == keys@[slot as int].deep_view());
                        assert(keys@[slot as int]@ == key_snapshot);
                        assert(keys@[slot as int].deep_view() =~~= seq![key_snapshot[0]@]);
                    }
                }
            }
            slot += 1;
        }
        let ghost bpre = bp@;
        let ghost bdv = bp.deep_view();
        let ghost keys_view = keys.deep_view();
        bp.push(keys);
        proof {
            assert forall|r2: int| 0 <= r2 <= row implies #[trigger] bp.deep_view()[r2].len()
                == spec_row_width(r2) by {
                if r2 < row {
                    assert(bdv[r2].len() == spec_row_width(r2));
                    assert(bp@[r2] == bpre[r2]);
                    assert(bp.deep_view()[r2] == bp@[r2].deep_view());
                    assert(bdv[r2] == bpre[r2].deep_view());
                } else {
                    assert(bp.deep_view()[r2] == bp@[row as int].deep_view());
                    assert(bp@[row as int].deep_view() == keys_view);
                }
            }
            assert forall|r2: int, s2: int|
                0 <= r2 <= row && 0 <= s2 < spec_row_width(r2) implies #[trigger] bp.deep_view(
            )[r2][s2] =~~= seq![spec_default_cell(r2, s2)] by {
                if r2 < row {
                    assert(bdv[r2][s2] =~~= seq![spec_default_cell(r2, s2)]);
                    assert(bp@[r2] == bpre[r2]);
                    assert(bp.deep_view()[r2] == bp@[r2].deep_view());
                    assert(bdv[r2] == bpre[r2].deep_view());
                } else {
                    assert(bp.deep_view()[r2] == keys_view);
                    assert(keys_view[s2] =~~= seq![spec_default_cell(row as int, s2)]);
                }
            }
        }
        row += 1;
    }
    bp
}


/// The text with every space removed.
pub open spec fn strip_spaces(s: Seq<char>) -> Seq<char>
    decreases s.len(),
{
    if s.len() == 0 {
        Seq::empty()
    } else if s[0] == ' ' {
        strip_spaces(s.drop_first())
    } else {
        seq![s[0]] + strip_spaces(s.drop_first())
    }
}

/// One more character either vanishes (a space) or lands at the end.
pub proof fn lemma_strip_spaces_take_step(s: Seq<char>, i: int)
    requires
        0 <= i < s.len(),
    ensures
        strip_spaces(s.take(i + 1)) == strip_spaces(s.take(i)) + (if s[i] == ' ' {
            Seq::<char>::empty()
        } else {
            seq![s[i]]
        }),
    decreases i,
{
    reveal_with_fuel(strip_spaces, 3);
    if i == 0 {
        assert(s.take(1)[0] == s[0]);
        assert(s.take(1).drop_first() =~= Seq::<char>::empty());
        assert(s.take(0) =~= Seq::<char>::empty());
        if s[0] == ' ' {
            assert(strip_spaces(s.take(1)) =~= Seq::<char>::empty());
        } else {
            assert(strip_spaces(s.take(1)) =~= seq![s[0]]);
            assert(strip_spaces(s.take(0)) + seq![s[0]] =~= seq![s[0]]);
        }
    } else {
        assert(s.take(i + 1)[0] == s[0]);
        assert(s.take(i)[0] == s[0]);
        assert(s.take(i + 1).drop_first() =~= s.drop_first().take(i));
        assert(s.take(i).drop_first() =~= s.drop_first().take(i - 1));
        assert(s.drop_first()[i - 1] == s[i]);
        lemma_strip_spaces_take_step(s.drop_first(), i - 1);
        if s[0] == ' ' {
        } else {
            assert(seq![s[0]] + (strip_spaces(s.drop_first().take(i - 1)) + (if s[i] == ' ' {
                Seq::<char>::empty()
            } else {
                seq![s[i]]
            })) =~= (seq![s[0]] + strip_spaces(s.drop_first().take(i - 1))) + (if s[i] == ' ' {
                Seq::<char>::empty()
            } else {
                seq![s[i]]
            }));
        }
    }
}

/// The rows of characters that a starting-layout override describes:
/// spaces are stripped, then the text splits at line breaks.
pub open spec fn override_lines(s: Seq<char>) -> Seq<Seq<char>> {
    split_keep(strip_spaces(s), '\n')
}

/// The printable text of one row: each key's first layer in slot
/// order, a blank where a key has no layers.
pub open spec fn row_repr(row: Seq<Seq<Seq<char>>>) -> Seq<char>
    decreases row.len(),
{
    if row.len() == 0 {
        Seq::empty()
    } else {
        (if row[0].len() == 0 {
            seq![' ']
        } else {
            row[0][0]
        }) + row_repr(row.drop_first())
    }
}

/// One more key appends its first layer.
proof fn lemma_row_repr_take_step(row: Seq<Seq<Seq<char>>>, i: int)
    requires
        0 <= i < row.len(),
    ensures
        row_repr(row.take(i + 1)) == row_repr(row.take(i)) + (if row[i].len() == 0 {
            seq![' ']
        } else {
            row[i][0]
        }),
    decreases i,
{
    reveal_with_fuel(row_repr, 3);
    if i == 0 {
        assert(row.take(1)[0] == row[0]);
        assert(row.take(1).drop_first() =~= Seq::<Seq<Seq<char>>>::empty());
        assert(row.take(0) =~= Seq::<Seq<Seq<char>>>::empty());
        assert(row_repr(row.take(1)) =~= (if row[0].len() == 0 {
            seq![' ']
        } else {
            row[0][0]
        }));
        assert(row_repr(row.take(0)) + (if row[0].len() == 0 {
            seq![' ']
        } else {
            row[0][0]
        }) =~= (if row[0].len() == 0 {
            seq![' ']
        } else {
            row[0][0]
        }));
    } else {
        assert(row.take(i + 1)[0] == row[0]);
        assert(row.take(i)[0] == row[0]);
        assert(row.take(i + 1).drop_first() =~= row.drop_first().take(i));
        assert(row.take(i).drop_first() =~= row.drop_first().take(i - 1));
        assert(row.drop_first()[i - 1] == row[i]);
        lemma_row_repr_take_step(row.drop_first(), i - 1);
        assert(row.drop_first().take(i) =~= row.drop_first().take((i - 1) + 1));
        let head = if row[0].len() == 0 {
            seq![' ']
        } else {
            row[0][0]
        };
        let tailadd = if row[i].len() == 0 {
            seq![' ']
        } else {
            row[i][0]
        };
        assert(head + (row_repr(row.drop_first().take(i - 1)) + tailadd) =~= (head + row_repr(
            row.drop_first().take(i - 1),
        )) + tailadd);
    }
}

/// The override coordinates covered after `rows` full lines and
/// `cols` characters of the next line: (r, c) is the key one row and
/// one slot in from line `r - 1`, character `c - 1`.
pub open spec fn merge_covered(lv: Seq<Seq<char>>, rows: int, cols: int, r: int, c: int) -> bool {
    &&& 1 <= r
    &&& r - 1 < lv.len()
    &&& 1 <= c
    &&& c - 1 < lv[r - 1].len()
    &&& (r - 1 < rows || (r - 1 == rows && c <= cols))
}

/// The key at (r, c) exists and has a first layer.
pub open spec fn lands_ok(v0: BlueprintView, r: int, c: int) -> bool {
    r < v0.len() && c < v0[r].len() && v0[r][c].len() >= 1
}

/// The first layer of key (r, c) holds exactly the override character
/// of line `r - 1`, position `c - 1`.
pub open spec fn landed(lv: Seq<Seq<char>>, w: BlueprintView, r: int, c: int) -> bool {
    w[r][c][0] == seq![lv[r - 1][c - 1]]
}

/// The two blueprints agree at the given cell.
pub open spec fn cell_same(v0: BlueprintView, w: BlueprintView, r: int, s: int, l: int) -> bool {
    w[r][s][l] == v0[r][s][l]
}

/// Every covered override character has a key to land on.
pub open spec fn merge_cells_ok(v0: BlueprintView, lv: Seq<Seq<char>>, rows: int, cols: int) -> bool {
    forall|r: int, c: int| merge_covered(lv, rows, cols, r, c) ==> #[trigger] lands_ok(v0, r, c)
}

/// Every covered override character stands in its key's first layer.
pub open spec fn merge_written(
    v0: BlueprintView,
    lv: Seq<Seq<char>>,
    w: BlueprintView,
    rows: int,
    cols: int,
) -> bool {
    forall|r: int, c: int|
        merge_covered(lv, rows, cols, r, c) && lands_ok(v0, r, c) ==> #[trigger] landed(lv, w, r, c)
}

/// Every cell no covered override character lands on is unchanged.
pub open spec fn merge_rest(
    v0: BlueprintView,
    lv: Seq<Seq<char>>,
    w: BlueprintView,
    rows: int,
    cols: int,
) -> bool {
    forall|r: int, s: int, l: int|
        0 <= r < v0.len() && 0 <= s < v0[r].len() && 0 <= l < v0[r][s].len() && (l != 0
            || !merge_covered(lv, rows, cols, r, s)) ==> #[trigger] cell_same(v0, w, r, s, l)
}

/// Both blueprints have the same geometry, cell for cell.
pub open spec fn same_lens(v0: BlueprintView, w: BlueprintView) -> bool {
    &&& w.len() == v0.len()
    &&& forall|r: int| 0 <= r < v0.len() ==> (#[trigger] w[r]).len() == v0[r].len()
    &&& forall|r: int, s: int|
        0 <= r < v0.len() && 0 <= s < v0[r].len() ==> (#[trigger] w[r][s]).len() == v0[r][s].len()
}

/// Every character of every override line has a key to land on.
pub open spec fn merge_fits(v0: BlueprintView, lv: Seq<Seq<char>>) -> bool {
    merge_cells_ok(v0, lv, lv.len() as int, 0)
}

/// `w` is `v0` with the override lines written onto the first layer,
/// offset by one row and one slot, and nothing else changed.
pub open spec fn is_merge_of(v0: BlueprintView, lv: Seq<Seq<char>>, w: BlueprintView) -> bool {
    &&& same_lens(v0, w)
    &&& merge_written(v0, lv, w, lv.len() as int, 0)
    &&& merge_rest(v0, lv, w, lv.len() as int, 0)
}

/// Before anything is covered, an untouched copy satisfies the merge
/// conditions.
proof fn lemma_merge_start(v0: BlueprintView, lv: Seq<Seq<char>>, w: BlueprintView)
    requires
        w == v0,
    ensures
        same_lens(v0, w),
        merge_cells_ok(v0, lv, 0, 0),
        merge_written(v0, lv, w, 0, 0),
        merge_rest(v0, lv, w, 0, 0),
{
    assert forall|r: int, s: int, l: int|
        0 <= r < v0.len() && 0 <= s < v0[r].len() && 0 <= l < v0[r][s].len() && (l != 0
            || !merge_covered(lv, 0, 0, r, s)) implies #[trigger] cell_same(v0, w, r, s, l) by {
    }
}

/// Writing the next override character extends the covered region by
/// exactly that one key.
proof fn lemma_merge_step(
    v0: BlueprintView,
    lv: Seq<Seq<char>>,
    wpre: BlueprintView,
    wpost: BlueprintView,
    li: int,
    ci: int,
)
    requires
        0 <= li < lv.len(),
        0 <= ci < lv[li].len(),
        lands_ok(v0, li + 1, ci + 1),
        same_lens(v0, wpre),
        merge_cells_ok(v0, lv, li, ci),
        merge_written(v0, lv, wpre, li, ci),
        merge_rest(v0, lv, wpre, li, ci),
        wpost == set_top_view(wpre, li + 1, ci + 1, seq![lv[li][ci]]),
    ensures
        same_lens(v0, wpost),
        merge_cells_ok(v0, lv, li, ci + 1),
        merge_written(v0, lv, wpost, li, ci + 1),
        merge_rest(v0, lv, wpost, li, ci + 1),
{
    assert(wpost[li + 1][ci + 1][0] == seq![lv[li][ci]]);
    assert(forall|r: int| 0 <= r < v0.len() ==> (#[trigger] wpost[r]).len() == wpre[r].len());
    assert(forall|r: int, s: int|
        0 <= r < v0.len() && 0 <= s < v0[r].len() ==> (#[trigger] wpost[r][s]).len()
            == wpre[r][s].len());
    assert(forall|r: int, s: int, l: int|
        0 <= r < v0.len() && 0 <= s < v0[r].len() && 0 <= l < v0[r][s].len() && !(r == li + 1 && s
            == ci + 1 && l == 0) ==> (#[trigger] wpost[r][s][l]) == wpre[r][s][l]);
    assert forall|r: int, c: int| merge_covered(lv, li, ci + 1, r, c) implies #[trigger] lands_ok(
        v0,
        r,
        c,
    ) by {
        if !(r == li + 1 && c == ci + 1) {
            assert(merge_covered(lv, li, ci, r, c));
        }
    }
    assert forall|r: int, c: int|
        merge_covered(lv, li, ci + 1, r, c) && lands_ok(v0, r, c) implies #[trigger] landed(
        lv,
        wpost,
        r,
        c,
    ) by {
        if r == li + 1 && c == ci + 1 {
            assert(landed(lv, wpost, r, c));
        } else {
            assert(merge_covered(lv, li, ci, r, c));
            assert(landed(lv, wpre, r, c));
            assert(wpost[r][c][0] == wpre[r][c][0]);
        }
    }
    assert forall|r: int, s: int, l: int|
        0 <= r < v0.len() && 0 <= s < v0[r].len() && 0 <= l < v0[r][s].len() && (l != 0
            || !merge_covered(lv, li, ci + 1, r, s)) implies #[trigger] cell_same(
        v0,
        wpost,
        r,
        s,
        l,
    ) by {
        assert(!(r == li + 1 && s == ci + 1 && l == 0));
        assert(wpost[r][s][l] == wpre[r][s][l]);
        assert(l != 0 || !merge_covered(lv, li, ci, r, s));
        assert(cell_same(v0, wpre, r, s, l));
    }
}

/// Finishing a line covers the same keys as standing at the start of
/// the next line.
proof fn lemma_merge_row_done(
    v0: BlueprintView,
    lv: Seq<Seq<char>>,
    w: BlueprintView,
    li: int,
)
    requires
        0 <= li < lv.len(),
        merge_cells_ok(v0, lv, li, lv[li].len() as int),
        merge_written(v0, lv, w, li, lv[li].len() as int),
        merge_rest(v0, lv, w, li, lv[li].len() as int),
    ensures
        merge_cells_ok(v0, lv, li + 1, 0),
        merge_written(v0, lv, w, li + 1, 0),
        merge_rest(v0, lv, w, li + 1, 0),
{
    assert(forall|r: int, c: int|
        merge_covered(lv, li + 1, 0, r, c) == merge_covered(lv, li, lv[li].len() as int, r, c));
    assert forall|r: int, c: int| merge_covered(lv, li + 1, 0, r, c) implies #[trigger] lands_ok(
        v0,
        r,
        c,
    ) by {
        assert(merge_covered(lv, li, lv[li].len() as int, r, c));
    }
    assert forall|r: int, c: int|
        merge_covered(lv, li + 1, 0, r, c) && lands_ok(v0, r, c) implies #[trigger] landed(
        lv,
        w,
        r,
        c,
    ) by {
        assert(merge_covered(lv, li, lv[li].len() as int, r, c));
    }
    assert forall|r: int, s: int, l: int|
        0 <= r < v0.len() && 0 <= s < v0[r].len() && 0 <= l < v0[r][s].len() && (l != 0
            || !merge_covered(lv, li + 1, 0, r, s)) implies #[trigger] cell_same(v0, w, r, s, l) by {
        assert(l != 0 || !merge_covered(lv, li, lv[li].len() as int, r, s));
        assert(cell_same(v0, w, r, s, l));
    }
}

/// The merge conditions at the final frontier are the merge
/// conditions of the whole override.
proof fn lemma_merge_finish(v0: BlueprintView, lv: Seq<Seq<char>>, w: BlueprintView)
    requires
        merge_cells_ok(v0, lv, lv.len() as int, 0),
        merge_written(v0, lv, w, lv.len() as int, 0),
        merge_rest(v0, lv, w, lv.len() as int, 0),
        same_lens(v0, w),
    ensures
        merge_fits(v0, lv),
        is_merge_of(v0, lv, w),
{
}

/// An override character with no key to land on refutes the whole
/// override.
proof fn lemma_merge_unfit(v0: BlueprintView, lv: Seq<Seq<char>>, li: int, ci: int)
    requires
        0 <= li < lv.len(),
        0 <= ci < lv[li].len(),
        !lands_ok(v0, li + 1, ci + 1),
    ensures
        !merge_fits(v0, lv),
{
    if merge_fits(v0, lv) {
        assert(merge_covered(lv, lv.len() as int, 0, li + 1, ci + 1));
        assert(lands_ok(v0, li + 1, ci + 1));
    }
}

impl Layout {
    /// Overrides the base layout's first layer with rows of characters,
    /// spaces stripped first, each line one row further down and each
    /// character one slot further right than the top-left corner. A
    /// character with no key to land on makes the whole override
    /// unusable.
    pub fn merge_layout_string(&self, layout_str: &str) -> (r: Result<Layout, KloError>)
        requires
            self.wf(),
        ensures
            ({
                let lines = override_lines(layout_str@);
                match r {
                    Ok(l) => l.wf() && merge_fits(self.bp(), lines) && is_merge_of(
                        self.bp(),
                        lines,
                        l.bp(),
                    ),
                    Err(e) => e == KloError::ConfigError && !merge_fits(self.bp(), lines),
                }
            }),
    {
        let ghost v0 = self.bp();
        let raw = chars_of(layout_str);
        let mut cleaned: Vec<char> = Vec::new();
        let mut i: usize = 0;
        proof {
            assert(raw@.take(0) =~= Seq::<char>::empty());
        }
        while i < raw.len()
            invariant
                i <= raw@.len(),
                raw@ == layout_str@,
                cleaned@ == strip_spaces(raw@.take(i as int)),
            decreases raw@.len() - i,
        {
            proof {
                lemma_strip_spaces_take_step(raw@, i as int);
            }
            let c = raw[i];
            if c != ' ' {
                cleaned.push(c);
                proof {
                    assert(cleaned@ =~= strip_spaces(raw@.take(i + 1)));
                }
            } else {
                proof {
                    assert(cleaned@ =~= strip_spaces(raw@.take(i + 1)));
                }
            }
            i += 1;
        }
        proof {
            assert(raw@.take(raw@.len() as int) =~= raw@);
        }
        let lines = split_chars(&cleaned, '\n');
        let ghost lv = lines.deep_view();
        proof {
            assert(lv == override_lines(layout_str@));
        }
        let mut bp = copy_blueprint(&self.blueprint);
        proof {
            lemma_merge_start(v0, lv, bp.deep_view());
        }
        let nlines: usize = lines.len();
        let mut li: usize = 0;
        while li < nlines
            invariant
                li <= nlines,
                nlines == lines@.len(),
                lv == lines.deep_view(),
                lv == override_lines(layout_str@),
                lv.len() == lines@.len(),
                v0 == self.bp(),
                same_lens(v0, bp.deep_view()),
                merge_cells_ok(v0, lv, li as int, 0),
                merge_written(v0, lv, bp.deep_view(), li as int, 0),
                merge_rest(v0, lv, bp.deep_view(), li as int, 0),
            decreases lines@.len() - li,
        {
            let line: &Vec<char> = &lines[li];
            proof {
                assert(lv[li as int] == lines@[li as int]@);
            }
            let mut ci: usize = 0;
            while ci < line.len()
                invariant
                    li < nlines,
                    nlines == lines@.len(),
                    ci <= line@.len(),
                    line == &lines@[li as int],
                    lv == lines.deep_view(),
                    lv == override_lines(layout_str@),
                    lv.len() == lines@.len(),
                    lv[li as int] == line@,
                    v0 == self.bp(),
                    same_lens(v0, bp.deep_view()),
                    merge_cells_ok(v0, lv, li as int, ci as int),
                    merge_written(v0, lv, bp.deep_view(), li as int, ci as int),
                    merge_rest(v0, lv, bp.deep_view(), li as int, ci as int),
                decreases line@.len() - ci,
            {
                let c = line[ci];
                if li + 1 >= bp.len() {
                    proof {
                        assert(!lands_ok(v0, li as int + 1, ci as int + 1));
                        lemma_merge_unfit(v0, lv, li as int, ci as int);
                    }
                    return Err(KloError::ConfigError);
                }
                let row_len = bp[li + 1].len();
                proof {
                    assert(bp.deep_view()[li as int + 1] == bp@[li as int + 1].deep_view());
                    assert(bp.deep_view()[li as int + 1].len() == v0[li as int + 1].len());
                }
                if ci + 1 >= row_len {
                    proof {
                        assert(!lands_ok(v0, li as int + 1, ci as int + 1));
                        lemma_merge_unfit(v0, lv, li as int, ci as int);
                    }
                    return Err(KloError::ConfigError);
                }
                let key_len = bp[li + 1][ci + 1].len();
                proof {
                    assert(bp.deep_view()[li as int + 1][ci as int + 1] == bp@[li as int
                        + 1]@[ci as int + 1].deep_view());
                    assert(bp.deep_view()[li as int + 1][ci as int + 1].len() == v0[li as int
                        + 1][ci as int + 1].len());
                }
                if key_len == 0 {
                    proof {
                        assert(!lands_ok(v0, li as int + 1, ci as int + 1));
                        lemma_merge_unfit(v0, lv, li as int, ci as int);
                    }
                    return Err(KloError::ConfigError);
                }
                let ghost pre = bp.deep_view();
                set_top_cell(&mut bp, li + 1, ci + 1, char_to_string(c));
                proof {
                    assert(c == lv[li as int][ci as int]);
                    assert(lands_ok(v0, li as int + 1, ci as int + 1));
                    lemma_merge_step(v0, lv, pre, bp.deep_view(), li as int, ci as int);
                }
                ci += 1;
            }
            proof {
                lemma_merge_row_done(v0, lv, bp.deep_view(), li as int);
            }
            li += 1;
        }
        proof {
            assert(li == nlines);
            assert(li as int == lv.len());
            lemma_merge_finish(v0, lv, bp.deep_view());
            assert(shape_ok(bp.deep_view())) by {
                assert(forall|r: int|
                    0 <= r < bp.deep_view().len() ==> (#[trigger] bp.deep_view()[r]).len()
                        == v0[r].len());
            }
        }
        Ok(Layout::from_blueprint(bp))
    }

    /// One printable line per row of the blueprint: each key shows its
    /// first layer, a blank standing in for a layerless key.
    pub fn debug_print(&self) -> (r: Vec<String>)
        ensures
            r@.len() == self.bp().len(),
            forall|i: int| 0 <= i < self.bp().len() ==> (#[trigger] r@[i])@ == row_repr(self.bp()[i]),
    {
        let mut out: Vec<String> = Vec::new();
        let mut ri: usize = 0;
        while ri < self.blueprint.len()
            invariant
                ri <= self.blueprint@.len(),
                self.bp().len() == self.blueprint@.len(),
                out@.len() == ri,
                forall|i: int| 0 <= i < ri ==> (#[trigger] out@[i])@ == row_repr(self.bp()[i]),
            decreases self.blueprint@.len() - ri,
        {
            let row = &self.blueprint[ri];
            let ghost rv = self.bp()[ri as int];
            proof {
                assert(rv == self.blueprint@[ri as int].deep_view());
            }
            let mut text = String::new();
            let mut si: usize = 0;
            proof {
                assert(rv.take(0) =~= Seq::<Seq<Seq<char>>>::empty());
            }
            while si < row.len()
                invariant
                    ri < self.blueprint@.len(),
                    si <= row@.len(),
                    row == &self.blueprint@[ri as int],
                    rv == self.bp()[ri as int],
                    rv == self.blueprint@[ri as int].deep_view(),
                    rv.len() == row@.len(),
                    text@ == row_repr(rv.take(si as int)),
                decreases row@.len() - si,
            {
                proof {
                    lemma_row_repr_take_step(rv, si as int);
                    assert(rv[si as int] == row@[si as int].deep_view());
                }
                let key = &row[si];
                if key.len() == 0 {
                    text.append(" ");
                    proof {
                        reveal_strlit(" ");
                        assert(text@ =~= row_repr(rv.take(si + 1)));
                    }
                } else {
                    let cell: &String = &key[0];
                    proof {
                        assert(cell@ == rv[si as int][0]);
                    }
                    text.append(cell.as_str());
                    proof {
                        assert(text@ =~= row_repr(rv.take(si + 1)));
                    }
                }
                si += 1;
            }
            proof {
                assert(rv.take(rv.len() as int) =~= rv);
            }
            out.push(text);
            ri += 1;
        }
        out
    }

    /// Builds the base layout: the supplied nested-array text, parsed
    /// and checked against the device geometry, or the built-in
    /// reference layout when no text is supplied.
    pub fn get_base_layout(base_layout: &Option<String>) -> (r: Result<Layout, KloError>)
        ensures
            match r {
                Ok(l) => l.wf() && shape_ok(l.bp()) && (match base_layout {
                    Some(t) => json_blueprint_of(t@) == Some(l.bp()),
                    None => is_default_view(l.bp()),
                }),
                Err(e) => e == KloError::ConfigError && (match base_layout {
                    Some(t) => json_blueprint_of(t@) is None || !shape_ok(
                        json_blueprint_of(t@)->Some_0,
                    ),
                    None => false,
                }),
            },
    {
        match base_layout {
            Some(text) => {
                match parse_blueprint_json(text.as_str()) {
                    Ok(bp) => {
                        if check_blueprint_shape(&bp) {
                            Ok(Layout::from_blueprint(bp))
                        } else {
                            Err(KloError::ConfigError)
                        }
                    },
                    Err(_) => Err(KloError::ConfigError),
                }
            },
            None => Ok(Layout::from_blueprint(default_blueprint())),
        }
    }

    /// Builds the starting layout of a run: the base layout with the
    /// configured starting rows written over its first layer.
    pub fn from_args(options: &KloOptions) -> (r: Result<Layout, KloError>)
        ensures
            match r {
                Ok(l) => l.wf() && (exists|bv: BlueprintView|
                    (match options.base_layout {
                        Some(t) => json_blueprint_of(t@) == Some(bv),
                        None => is_default_view(bv),
                    }) && #[trigger] is_merge_of(
                        bv,
                        override_lines(options.starting_layout@),
                        l.bp(),
                    )),
                Err(e) => e == KloError::ConfigError && (match options.base_layout {
                    Some(t) => json_blueprint_of(t@) is None || !shape_ok(
                        json_blueprint_of(t@)->Some_0,
                    ) || !merge_fits(
                        json_blueprint_of(t@)->Some_0,
                        override_lines(options.starting_layout@),
                    ),
                    None => forall|bv: BlueprintView|
                        is_default_view(bv) ==> !merge_fits(
                            bv,
                            override_lines(options.starting_layout@),
                        ),
                }),
            },
    {
        let base = match Self::get_base_layout(&options.base_layout) {
            Ok(l) => l,
            Err(e) => {
                return Err(e);
            },
        };
        let ghost bv = base.bp();
        match base.merge_layout_string(options.starting_layout.as_str()) {
            Ok(l) => {
                proof {
                    assert(is_merge_of(bv, override_lines(options.starting_layout@), l.bp()));
                }
                Ok(l)
            },
            Err(e) => {
                proof {
                    assert(!merge_fits(bv, override_lines(options.starting_layout@)));
                    if options.base_layout is None {
                        assert forall|other: BlueprintView| is_default_view(other) implies
                            !merge_fits(other, override_lines(options.starting_layout@)) by {
                            assert forall|r2: int| 0 <= r2 < 5 implies #[trigger] other[r2]
                                =~~= bv[r2] by {
                                assert(other[r2].len() == spec_row_width(r2));
                                assert(bv[r2].len() == spec_row_width(r2));
                                assert forall|s2: int|
                                    0 <= s2 < spec_row_width(r2) implies #[trigger] other[r2][s2]
                                    == bv[r2][s2] by {
                                    assert(other[r2][s2] == seq![spec_default_cell(r2, s2)]);
                                    assert(bv[r2][s2] == seq![spec_default_cell(r2, s2)]);
                                }
                            }
                            assert(other =~~= bv);
                        }
                    }
                }
                Err(e)
            },
        }
    }
}

} // verus!
