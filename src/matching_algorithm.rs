//! Pairing: the next round's opponents, by an optimising dynamic program over
//! the ranking, or by exhaustive backtracking.
use vstd::prelude::*;
use std::cmp::Ordering;
use itertools::Itertools;
use crate::players::{Player, rank_cmp, had_matched};

verus! {

/// The sort key of a player still in the event: points, opponent match-win
/// share, game-win share, opponent game-win share, id counted down from the
/// largest, and the player's position on the roster.
pub type SortKey = (u64, u64, u64, u64, usize, usize);

/// Lexicographic order on keys, as tuples compare.
pub open spec fn key_le(a: SortKey, b: SortKey) -> bool {
    a.0 < b.0 || (a.0 == b.0 && (a.1 < b.1 || (a.1 == b.1 && (a.2 < b.2 || (a.2 == b.2 && (a.3
        < b.3 || (a.3 == b.3 && (a.4 < b.4 || (a.4 == b.4 && a.5 <= b.5)))))))))
}

pub open spec fn key_of(ps: Seq<Player>, i: int) -> SortKey {
    (
        ps[i].points,
        ps[i].opponent_match_win_percentage,
        ps[i].game_win_percentage,
        ps[i].opponent_game_win_percentage,
        (usize::MAX - ps[i].id) as usize,
        i as usize,
    )
}

/// Relies on itertools::Itertools::sorted: the same items, in ascending
/// order.
#[verifier::external_body]
fn sort_keys(keys: Vec<SortKey>) -> (r: Vec<SortKey>)
    ensures
        r@.to_multiset() == keys@.to_multiset(),
        forall|a: int, b: int| 0 <= a < b < r.len() ==> key_le(r[a], r[b]),
{
    keys.into_iter().sorted().collect()
}

/// A higher key means a higher rank.
proof fn lemma_key_rank(ps: Seq<Player>, i: int, j: int)
    requires
        0 <= i < ps.len(),
        0 <= j < ps.len(),
        !ps[i].dropped,
        !ps[j].dropped,
        key_le(key_of(ps, j), key_of(ps, i)),
    ensures
        rank_cmp(&ps[i], &ps[j]) != Ordering::Less,
{
}

/// The positions of the players still in the event, best ranked first.
pub fn filter_sorted_matchable_players(players: &Vec<Player>) -> (r: Vec<usize>)
    ensures
        r.len() <= players.len(),
        r@.no_duplicates(),
        forall|q: int|
            0 <= q < r.len() ==> #[trigger] r[q] < players.len() && !players[r[q] as int].dropped,
        forall|i: int| 0 <= i < players.len() && !players[i].dropped ==> r@.contains(i as usize),
        forall|a: int, b: int|
            0 <= a < b < r.len() ==> rank_cmp(&players[r[a] as int], &players[r[b] as int])
                != Ordering::Less,
{
    let ghost ps = players@;
    let n = players.len();
    let mut keys: Vec<SortKey> = Vec::new();
    let mut i: usize = 0;
    while i < n
        invariant
            n == players.len(),
            ps == players@,
            i <= n,
            forall|t: int|
                0 <= t < keys.len() ==> {
                    &&& (#[trigger] keys[t]).5 < i
                    &&& !ps[keys[t].5 as int].dropped
                    &&& keys[t] == key_of(ps, keys[t].5 as int)
                },
            forall|t: int, u: int| 0 <= t < u < keys.len() ==> keys[t].5 < keys[u].5,
            forall|j: int| 0 <= j < i && !ps[j].dropped ==> keys@.contains(key_of(ps, j)),
            keys.len() <= i,
        decreases n - i,
    {
        let p = &players[i];
        let ghost before = keys@;
        if !p.is_dropped() {
            keys.push(
                (
                    p.points(),
                    p.opponent_match_win_percentage(),
                    p.game_win_percentage(),
                    p.opponent_game_win_percentage(),
                    usize::MAX - p.id(),
                    i,
                ),
            );
            assert(keys[keys.len() - 1] == key_of(ps, i as int));
        }
        i = i + 1;
        assert forall|j: int| 0 <= j < i && !ps[j].dropped implies keys@.contains(key_of(ps, j)) by {
            if j == i - 1 {
                assert(keys[keys.len() - 1] == key_of(ps, j));
            } else {
                let t = choose|t: int| 0 <= t < before.len() && before[t] == key_of(ps, j);
                assert(keys[t] == key_of(ps, j));
            }
        }
    }
    let ghost ks = keys@;
    let sorted = sort_keys(keys);
    proof {
        broadcast use vstd::seq_lib::group_to_multiset_ensures;
        assert(ks.no_duplicates());
        ks.lemma_multiset_has_no_duplicates();
        assert forall|x: SortKey| sorted@.to_multiset().contains(x) implies sorted@.to_multiset().count(x) == 1 by {
            assert(ks.to_multiset().contains(x));
        }
        sorted@.lemma_multiset_has_no_duplicates_conv();
        assert forall|x: SortKey| #[trigger] sorted@.contains(x) implies ks.contains(x) by {
            assert(sorted@.to_multiset().count(x) > 0);
        }
        assert forall|x: SortKey| #[trigger] ks.contains(x) implies sorted@.contains(x) by {
            assert(ks.to_multiset().count(x) > 0);
        }
        assert(sorted@.to_multiset().len() == ks.to_multiset().len());
        assert(sorted@.len() == ks.len());
    }
    let m = sorted.len();
    let mut r: Vec<usize> = Vec::new();
    let mut j: usize = m;
    while j > 0
        invariant
            m == sorted.len(),
            j <= m,
            r.len() == m - j,
            forall|q: int| 0 <= q < r.len() ==> r[q] == #[trigger] sorted[m - 1 - q].5,
        decreases j,
    {
        j = j - 1;
        r.push(sorted[j].5);
    }
    proof {
        assert forall|q: int| 0 <= q < r.len() implies #[trigger] r[q] < players.len()
            && !players[r[q] as int].dropped && sorted[m - 1 - q] == key_of(ps, r[q] as int) by {
            assert(sorted@.contains(sorted[m - 1 - q]));
            let t = choose|t: int| 0 <= t < ks.len() && ks[t] == sorted[m - 1 - q];
            assert(ks[t].5 < n);
        }
        assert forall|a: int, b: int| 0 <= a < b < r.len() implies r[a] != r[b] by {
            assert(sorted[m - 1 - a] == key_of(ps, r[a] as int));
            assert(sorted[m - 1 - b] == key_of(ps, r[b] as int));
        }
        assert forall|i: int| 0 <= i < players.len() && !players[i].dropped implies r@.contains(i as usize) by {
            assert(ks.contains(key_of(ps, i)));
            assert(sorted@.contains(key_of(ps, i)));
            let t = choose|t: int| 0 <= t < sorted.len() && sorted[t] == key_of(ps, i);
            assert(r[m - 1 - t] == i);
        }
        assert forall|a: int, b: int| 0 <= a < b < r.len() implies rank_cmp(&players[r[a] as int], &players[r[b] as int])
            != Ordering::Less by {
            lemma_key_rank(ps, r[a] as int, r[b] as int);
        }
    }
    r
}

/// Why no pairing was returned.
#[derive(Debug, Clone, Copy, PartialEq, Eq)]
pub enum PairingError {
    /// No assignment meets the rules within the search's bounds.
    NoSatisfyingMatching,
}

/// Player `i` is still in the event and was given nobody.
pub open spec fn is_bye(ps: Seq<Player>, a: Seq<Option<usize>>, i: int) -> bool {
    !ps[i].dropped && a[i] is None
}

/// `a[i]` is the opponent of player `i` in the next round: the pairing is
/// symmetric, dropped players get nobody, nobody meets an opponent twice, at
/// most one player is left without an opponent, and that player has not had
/// a bye before. Players are named by their position on the roster, which is
/// their id on a tournament's roster.
pub open spec fn valid_assignment(ps: Seq<Player>, a: Seq<Option<usize>>) -> bool {
    &&& a.len() == ps.len()
    &&& a.len() <= usize::MAX
    &&& forall|i: int| 0 <= i < a.len() && (#[trigger] ps[i]).dropped ==> a[i] is None
    &&& forall|i: int|
        0 <= i < a.len() && (#[trigger] a[i]) is Some ==> {
            let j = a[i]->Some_0;
            &&& j < a.len()
            &&& j != i
            &&& a[j as int] == Some(i as usize)
            &&& !had_matched(ps[i].matching_list@, Some(j))
        }
    &&& forall|i: int|
        0 <= i < a.len() && #[trigger] is_bye(ps, a, i) ==> !had_matched(
            ps[i].matching_list@,
            None,
        )
    &&& forall|i: int, j: int|
        0 <= i < a.len() && 0 <= j < a.len() && #[trigger] is_bye(ps, a, i) && #[trigger] is_bye(
            ps,
            a,
            j,
        ) ==> i == j
}

/// What `matching_build_greed` needs of the order it walks: the positions of
/// the players still in the event, each once.
pub open spec fn is_matchable_order(ps: Seq<Player>, ord: Seq<usize>) -> bool {
    &&& ord.no_duplicates()
    &&& forall|q: int| 0 <= q < ord.len() ==> #[trigger] ord[q] < ps.len() && !ps[ord[q] as int].dropped
    &&& forall|i: int| 0 <= i < ps.len() && !ps[i].dropped ==> ord.contains(i as usize)
}

/// A partial pairing while the search stands at position `pos` of `ord`:
/// symmetric and without rematches, every earlier position settled, paired
/// or the one bye.
spec fn search_state(
    ps: Seq<Player>,
    ord: Seq<usize>,
    pos: int,
    bye: Option<usize>,
    a: Seq<Option<usize>>,
) -> bool {
    &&& is_matchable_order(ps, ord)
    &&& 0 <= pos <= ord.len()
    &&& a.len() == ps.len()
    &&& forall|i: int| 0 <= i < a.len() && (#[trigger] ps[i]).dropped ==> a[i] is None
    &&& forall|i: int|
        0 <= i < a.len() && (#[trigger] a[i]) is Some ==> {
            let j = a[i]->Some_0;
            &&& j < a.len()
            &&& j != i
            &&& a[j as int] == Some(i as usize)
            &&& !had_matched(ps[i].matching_list@, Some(j))
        }
    &&& forall|q: int| 0 <= q < pos ==> a[#[trigger] ord[q] as int] is Some || bye == Some(ord[q])
    &&& bye matches Some(b) ==> {
        &&& exists|q: int| 0 <= q < pos && #[trigger] ord[q] == b
        &&& b < a.len()
        &&& a[b as int] is None
        &&& !had_matched(ps[b as int].matching_list@, None)
    }
}

/// `b` completes the partial pairing `a` of a search standing at position
/// `pos`: it keeps every pair of `a` and settles the earlier positions as `a`
/// does.
spec fn extends(ord: Seq<usize>, pos: int, a: Seq<Option<usize>>, b: Seq<Option<usize>>) -> bool {
    &&& b.len() == a.len()
    &&& forall|i: int| 0 <= i < a.len() && (#[trigger] a[i]) is Some ==> b[i] == a[i]
    &&& forall|q: int| 0 <= q < pos ==> b[#[trigger] ord[q] as int] == a[ord[q] as int]
}

/// Depth-first search from position `pos` of `order`: a player already paired
/// is passed over; otherwise each later unpaired player it has not met is
/// tried in turn, and last a bye, if none was given yet and it has not had
/// one. On success `matched_list` holds the pairing; on failure it is as it
/// was.
fn matching_dfs(
    players: &Vec<Player>,
    order: &Vec<usize>,
    pos: usize,
    bye: Option<usize>,
    matched_list: &mut Vec<Option<usize>>,
) -> (r: bool)
    requires
        search_state(players@, order@, pos as int, bye, old(matched_list)@),
    ensures
        r ==> valid_assignment(players@, final(matched_list)@),
        !r ==> final(matched_list)@ == old(matched_list)@,
        !r ==> forall|b: Seq<Option<usize>>|
            #[trigger] extends(order@, pos as int, old(matched_list)@, b) ==> !valid_assignment(
                players@,
                b,
            ),
    decreases order.len() - pos,
{
    let ghost ps = players@;
    let ghost ord = order@;
    if pos == order.len() {
        proof {
            let a = matched_list@;
            assert(a.len() == matched_list.len());
            assert forall|i: int| 0 <= i < a.len() && #[trigger] is_bye(ps, a, i) implies bye == Some(
                i as usize,
            ) by {
                assert(ord.contains(i as usize));
                let q = choose|q: int| 0 <= q < ord.len() && ord[q] == i as usize;
                assert(a[ord[q] as int] is Some || bye == Some(ord[q]));
            }
        }
        return true;
    }
    let pid = order[pos];
    if matched_list[pid].is_some() {
        let ghost a0 = matched_list@;
        let r = matching_dfs(players, order, pos + 1, bye, matched_list);
        proof {
            if !r {
                assert forall|b: Seq<Option<usize>>| #[trigger] extends(ord, pos as int, a0, b) implies !valid_assignment(ps, b) by {
                    assert(extends(ord, pos + 1, a0, b));
                }
            }
        }
        return r;
    }
    let ghost start = matched_list@;
    let mut opp: usize = pos + 1;
    while opp < order.len()
        invariant
            ps == players@,
            ord == order@,
            pos < opp <= order.len(),
            pid == ord[pos as int],
            matched_list@ == start,
            start == old(matched_list)@,
            search_state(ps, ord, pos as int, bye, start),
            start[pid as int] is None,
            forall|b: Seq<Option<usize>>, q: int|
                pos < q < opp && #[trigger] extends(ord, pos as int, start, b) && b[pid as int] == Some(
                    #[trigger] ord[q],
                ) ==> !valid_assignment(ps, b),
        decreases order.len() - opp,
    {
        let oid = order[opp];
        assert(ord[pos as int] != ord[opp as int]);
        if !players[pid].had_matched_id(Some(oid)) && !players[oid].had_matched_id(Some(pid))
            && matched_list[oid].is_none() {
            matched_list.set(pid, Some(oid));
            matched_list.set(oid, Some(pid));
            proof {
                let a = matched_list@;
                assert forall|i: int| 0 <= i < a.len() && (#[trigger] a[i]) is Some implies {
                    let j = a[i]->Some_0;
                    &&& j < a.len()
                    &&& j != i
                    &&& a[j as int] == Some(i as usize)
                    &&& !had_matched(ps[i].matching_list@, Some(j))
                } by {
                    if i != pid && i != oid {
                        assert(start[i] is Some);
                    }
                }
                assert forall|q: int| 0 <= q < pos + 1 implies a[#[trigger] ord[q] as int] is Some
                    || bye == Some(ord[q]) by {
                    if q < pos {
                        assert(start[ord[q] as int] is Some || bye == Some(ord[q]));
                    }
                }
                if bye is Some {
                    let b = bye->Some_0;
                    let qb = choose|q: int| 0 <= q < pos && #[trigger] ord[q] == b;
                    assert(ord[qb] != ord[opp as int]);
                }
            }
            let ghost paired = matched_list@;
            if matching_dfs(players, order, pos + 1, bye, matched_list) {
                return true;
            }
            proof {
                assert forall|b: Seq<Option<usize>>| #[trigger] extends(ord, pos as int, start, b) && b[pid as int] == Some(oid) implies !valid_assignment(ps, b) by {
                    if valid_assignment(ps, b) {
                        assert(b[pid as int] is Some);
                        assert forall|i: int| 0 <= i < paired.len() && (#[trigger] paired[i]) is Some implies b[i] == paired[i] by {
                            if i != pid && i != oid {
                                assert(start[i] is Some);
                            }
                        }
                        assert forall|q: int| 0 <= q < pos + 1 implies b[#[trigger] ord[q] as int] == paired[ord[q] as int] by {
                            if q < pos {
                                assert(b[ord[q] as int] == start[ord[q] as int]);
                                assert(ord[q] != ord[opp as int]);
                            }
                        }
                        assert(extends(ord, pos + 1, paired, b));
                    }
                }
            }
            matched_list.set(pid, None);
            matched_list.set(oid, None);
            assert(matched_list@ =~= start);
        } else {
            proof {
                assert forall|b: Seq<Option<usize>>| #[trigger] extends(ord, pos as int, start, b) && b[pid as int] == Some(oid) implies !valid_assignment(ps, b) by {
                    if valid_assignment(ps, b) {
                        assert(b[pid as int] is Some);
                        assert(b[oid as int] == Some(pid));
                        assert(b[oid as int] is Some);
                        if start[oid as int] is Some {
                            assert(b[oid as int] == start[oid as int]);
                            assert(start[pid as int] == Some(oid));
                        }
                    }
                }
            }
        }
        opp = opp + 1;
    }
    if bye.is_none() && !players[pid].had_matched_id(None) {
        proof {
            let a = matched_list@;
            assert forall|q: int| 0 <= q < pos + 1 implies a[#[trigger] ord[q] as int] is Some
                || Some(pid) == Some(ord[q]) by {
                if q < pos {
                    assert(a[ord[q] as int] is Some || bye == Some(ord[q]));
                }
            }
            assert(ord[pos as int] == pid);
        }
        if matching_dfs(players, order, pos + 1, Some(pid), matched_list) {
            return true;
        }
    }
    proof {
        assert forall|b: Seq<Option<usize>>| #[trigger] extends(ord, pos as int, start, b) implies !valid_assignment(ps, b) by {
            if valid_assignment(ps, b) {
                if b[pid as int] is Some {
                    let j = b[pid as int]->Some_0;
                    assert(b[j as int] == Some(pid));
                    assert(!ps[j as int].dropped) by {
                        if ps[j as int].dropped {
                            assert(b[j as int] is None);
                        }
                    }
                    assert(ord.contains(j));
                    let q = choose|q: int| 0 <= q < ord.len() && ord[q] == j;
                    if q < pos {
                        assert(b[ord[q] as int] == start[ord[q] as int]);
                        assert(start[j as int] is Some);
                        assert(start[pid as int] == Some(j));
                    } else {
                        assert(q != pos);
                        assert(b[pid as int] == Some(ord[q]));
                    }
                } else {
                    assert(is_bye(ps, b, pid as int));
                    if bye is Some {
                        let b0 = bye->Some_0;
                        let qb = choose|q: int| 0 <= q < pos && #[trigger] ord[q] == b0;
                        assert(b[ord[qb] as int] == start[ord[qb] as int]);
                        assert(is_bye(ps, b, b0 as int));
                        assert(ord[qb] != ord[pos as int]);
                    } else {
                        assert forall|i: int| 0 <= i < start.len() && (#[trigger] start[i]) is Some implies b[i] == start[i] by {}
                        assert forall|q: int| 0 <= q < pos + 1 implies b[#[trigger] ord[q] as int] == start[ord[q] as int] by {}
                        assert(extends(ord, pos + 1, start, b));
                    }
                }
            }
        }
    }
    false
}

/// Pairs the players still in the event by exhaustive backtracking over the
/// ranking, best ranked first; the first pairing found is returned. It fails
/// only when no valid assignment exists.
pub fn matching_build_greed(players: &Vec<Player>) -> (r: Result<Vec<Option<usize>>, PairingError>)
    ensures
        r matches Ok(a) ==> valid_assignment(players@, a@),
        r is Err ==> forall|a: Seq<Option<usize>>| !valid_assignment(players@, a),
{
    let order = filter_sorted_matchable_players(players);
    let mut matching_list: Vec<Option<usize>> = Vec::new();
    let mut i: usize = 0;
    while i < players.len()
        invariant
            i <= players.len(),
            matching_list@.len() == i,
            forall|j: int| 0 <= j < i ==> (#[trigger] matching_list@[j]) is None,
        decreases players.len() - i,
    {
        matching_list.push(None);
        i = i + 1;
    }
    if matching_dfs(players, &order, 0, None, &mut matching_list) {
        Ok(matching_list)
    } else {
        proof {
            assert forall|a: Seq<Option<usize>>| valid_assignment(players@, a) implies false by {
                assert forall|i: int| 0 <= i < matching_list@.len() && (#[trigger] matching_list@[i]) is Some implies a[i] == matching_list@[i] by {}
                assert(extends(order@, 0, matching_list@, a));
            }
        }
        Err(PairingError::NoSatisfyingMatching)
    }
}

/// Bit `j` of mask `b`.
pub open spec fn bit(b: u64, j: int) -> bool {
    0 <= j < 64 && (b >> (j as u64)) & 1 == 1
}

proof fn lemma_bit_shift(x: u64, j: int)
    requires
        0 <= j < 63,
    ensures
        bit(x >> 1, j) == bit(x, j + 1),
{
    let jj = j as u64;
    assert(((x >> 1u64) >> jj) & 1 == (x >> (jj + 1)) & 1) by (bit_vector)
        requires
            jj < 63,
    ;
}

proof fn lemma_bit_zero(x: u64)
    ensures
        bit(x, 0) == (x & 1 == 1),
{
    assert((x >> 0u64) & 1 == x & 1) by (bit_vector);
}

proof fn lemma_bit_set(y: u64, k: int, j: int)
    requires
        0 <= k < 64,
        0 <= j < 64,
    ensures
        bit(y | (1u64 << (k as u64)), j) == (bit(y, j) || j == k),
{
    let kk = k as u64;
    let jj = j as u64;
    assert((((y | (1u64 << kk)) >> jj) & 1 == 1) == (((y >> jj) & 1 == 1) || jj == kk)) by (bit_vector)
        requires
            kk < 64,
            jj < 64,
    ;
}

proof fn lemma_bit_high(x: u64, e: int, j: int)
    requires
        0 <= e <= 25,
        x < (1u64 << (e as u64)),
        e <= j,
    ensures
        !bit(x, j),
{
    if j < 64 {
        let ee = e as u64;
        let jj = j as u64;
        assert((x >> jj) & 1 == 0) by (bit_vector)
            requires
                ee <= 25,
                x < (1u64 << ee),
                ee <= jj,
                jj < 64,
        ;
    }
}

proof fn lemma_mask_bounds(x: u64, e: int, k: int)
    requires
        1 <= e <= 25,
        x < (1u64 << (e as u64)),
        0 <= k < e,
    ensures
        (x >> 1) < (1u64 << (e as u64)),
        ((x >> 1) | (1u64 << (k as u64))) < (1u64 << (e as u64)),
{
    let ee = e as u64;
    let kk = k as u64;
    assert((x >> 1) < (1u64 << ee) && ((x >> 1) | (1u64 << kk)) < (1u64 << ee)) by (bit_vector)
        requires
            1 <= ee <= 25,
            x < (1u64 << ee),
            kk < ee,
    ;
}

/// One recorded transition of the dynamic program, kept for the walk back.
#[derive(Clone, Copy)]
enum Step {
    /// the state was not reached
    Unreached,
    /// the position was already taken; the mask before it
    Skip(u64),
    /// the position was paired with the one `offset + 1` places on; the mask
    /// before it and the offset
    Pair(u64, usize),
}

/// May positions `p` and `q` of the ranking be paired? Position
/// `ord.len()` stands for the bye.
pub open spec fn pos_ok(ps: Seq<Player>, ord: Seq<usize>, p: int, q: int) -> bool {
    let bye_pos = ord.len() as int;
    if q == bye_pos {
        !had_matched(ps[ord[p] as int].matching_list@, None)
    } else if p == bye_pos {
        !had_matched(ps[ord[q] as int].matching_list@, None)
    } else {
        &&& !had_matched(ps[ord[p] as int].matching_list@, Some(ord[q]))
        &&& !had_matched(ps[ord[q] as int].matching_list@, Some(ord[p]))
    }
}

/// State `(n, b)` was reached: `n` positions settled, mask `b` over the
/// following ones.
spec fn reached(rb: Seq<Vec<Step>>, n: int, b: u64) -> bool {
    if n == 0 {
        b == 0
    } else {
        !(rb[n - 1]@[b as int] is Unreached)
    }
}

/// The transition recorded for state `(n, b)` is one that the rules allow,
/// from a reached state.
spec fn step_ok(
    ps: Seq<Player>,
    ord: Seq<usize>,
    total: int,
    ext: int,
    rb: Seq<Vec<Step>>,
    n: int,
    s: Step,
    b: u64,
) -> bool {
    match s {
        Step::Unreached => true,
        Step::Skip(prev) => {
            &&& prev < (1u64 << (ext as u64))
            &&& prev & 1 == 1
            &&& b == prev >> 1
            &&& reached(rb, n - 1, prev)
        },
        Step::Pair(prev, k) => {
            &&& prev < (1u64 << (ext as u64))
            &&& prev & 1 == 0
            &&& k < ext
            &&& n + k < total
            &&& !bit(prev >> 1, k as int)
            &&& b == (prev >> 1) | (1u64 << (k as u64))
            &&& pos_ok(ps, ord, n - 1, n + k)
            &&& reached(rb, n - 1, prev)
        },
    }
}

spec fn table_ok(ps: Seq<Player>, ord: Seq<usize>, total: int, ext: int, rb: Seq<Vec<Step>>) -> bool {
    forall|n: int|
        1 <= n <= rb.len() ==> {
            &&& (#[trigger] rb[n - 1])@.len() == (1u64 << (ext as u64))
            &&& forall|b: u64|
                b < (1u64 << (ext as u64)) ==> #[trigger] step_ok(ps, ord, total, ext, rb, n, rb[n - 1]@[b as int], b)
        }
}

/// The ranking the dynamic program walks: the players still in the event,
/// best first.
pub open spec fn is_ranked_order(ps: Seq<Player>, ord: Seq<usize>) -> bool {
    &&& is_matchable_order(ps, ord)
    &&& forall|a: int, b: int|
        0 <= a < b < ord.len() ==> rank_cmp(&ps[ord[a] as int], &ps[ord[b] as int]) != Ordering::Less
}

/// Whether positions `p < q` may be paired; `order.len()` is the bye.
fn legal_pair(players: &Vec<Player>, order: &Vec<usize>, p: usize, q: usize) -> (r: bool)
    requires
        is_matchable_order(players@, order@),
        p < q <= order.len(),
    ensures
        r == pos_ok(players@, order@, p as int, q as int),
{
    let pid = order[p];
    if q == order.len() {
        !players[pid].had_matched_id(None)
    } else {
        let qid = order[q];
        !players[pid].had_matched_id(Some(qid)) && !players[qid].had_matched_id(Some(pid))
    }
}

/// What pairing position `p` with `q > p` costs: the points between them,
/// or all of `p`'s points for the bye, so that byes go low in the standings.
pub open spec fn pair_cost_of(ps: Seq<Player>, ord: Seq<usize>, p: int, q: int) -> int {
    if q == ord.len() {
        ps[ord[p] as int].points as int
    } else {
        ps[ord[p] as int].points - ps[ord[q] as int].points
    }
}

/// What the pairing `pt` costs for the positions below `n`, each pair
/// counted at its first position.
pub open spec fn prefix_cost(ps: Seq<Player>, ord: Seq<usize>, pt: Seq<Option<usize>>, n: int) -> int
    decreases n,
{
    if n <= 0 {
        0
    } else {
        prefix_cost(ps, ord, pt, n - 1) + if pt[n - 1] is Some && pt[n - 1]->Some_0 > n - 1 {
            pair_cost_of(ps, ord, n - 1, pt[n - 1]->Some_0 as int)
        } else {
            0
        }
    }
}

/// The value recorded for a state agrees with its transition: the value of
/// the state before, plus the cost of the pair it makes.
spec fn step_value_ok(
    ps: Seq<Player>,
    ord: Seq<usize>,
    before: Seq<u128>,
    n: int,
    s: Step,
    v: u128,
) -> bool {
    match s {
        Step::Unreached => true,
        Step::Skip(prev) => v == before[prev as int],
        Step::Pair(prev, k) => v == before[prev as int] + pair_cost_of(ps, ord, n - 1, n + k),
    }
}

/// What `pt` costs for the positions in `[lo, hi)`.
spec fn range_cost(ps: Seq<Player>, ord: Seq<usize>, pt: Seq<Option<usize>>, lo: int, hi: int) -> int
    decreases hi - lo,
{
    if hi <= lo {
        0
    } else {
        (if pt[lo] is Some && pt[lo]->Some_0 > lo {
            pair_cost_of(ps, ord, lo, pt[lo]->Some_0 as int)
        } else {
            0
        }) + range_cost(ps, ord, pt, lo + 1, hi)
    }
}

proof fn lemma_range_cost_split(ps: Seq<Player>, ord: Seq<usize>, pt: Seq<Option<usize>>, lo: int, hi: int)
    requires
        lo < hi,
    ensures
        range_cost(ps, ord, pt, lo, hi) == range_cost(ps, ord, pt, lo, hi - 1) + (if pt[hi - 1] is Some
            && pt[hi - 1]->Some_0 > hi - 1 {
            pair_cost_of(ps, ord, hi - 1, pt[hi - 1]->Some_0 as int)
        } else {
            0
        }),
    decreases hi - lo,
{
    if lo < hi - 1 {
        lemma_range_cost_split(ps, ord, pt, lo + 1, hi);
    } else {
        assert(range_cost(ps, ord, pt, lo + 1, hi) == 0);
        assert(range_cost(ps, ord, pt, lo, hi - 1) == 0);
    }
}

proof fn lemma_prefix_is_range(ps: Seq<Player>, ord: Seq<usize>, pt: Seq<Option<usize>>, n: int)
    requires
        0 <= n,
    ensures
        prefix_cost(ps, ord, pt, n) == range_cost(ps, ord, pt, 0, n),
    decreases n,
{
    if n > 0 {
        lemma_prefix_is_range(ps, ord, pt, n - 1);
        lemma_range_cost_split(ps, ord, pt, 0, n);
    }
}

/// Entries that pay nothing in `[lo, hi)` before and after leave the cost
/// there unchanged.
proof fn lemma_range_cost_frame(
    ps: Seq<Player>,
    ord: Seq<usize>,
    pt: Seq<Option<usize>>,
    pt2: Seq<Option<usize>>,
    lo: int,
    hi: int,
)
    requires
        forall|p: int| lo <= p < hi ==> (pt[p] is Some && pt[p]->Some_0 > p) == (pt2[p] is Some && pt2[p]->Some_0 > p),
        forall|p: int| lo <= p < hi && pt[p] is Some && pt[p]->Some_0 > p ==> pt2[p] == pt[p],
    ensures
        range_cost(ps, ord, pt, lo, hi) == range_cost(ps, ord, pt2, lo, hi),
    decreases hi - lo,
{
    if lo < hi {
        lemma_range_cost_frame(ps, ord, pt, pt2, lo + 1, hi);
    }
}

proof fn lemma_prefix_cost_bound(ps: Seq<Player>, ord: Seq<usize>, pt: Seq<Option<usize>>, n: int)
    requires
        0 <= n,
    ensures
        prefix_cost(ps, ord, pt, n) <= n * (u64::MAX as int),
    decreases n,
{
    if n > 0 {
        lemma_prefix_cost_bound(ps, ord, pt, n - 1);
    }
}

/// What pairing position `p` with `q > p` costs.
fn pair_cost(players: &Vec<Player>, order: &Vec<usize>, p: usize, q: usize) -> (r: u64)
    requires
        is_ranked_order(players@, order@),
        p < q <= order.len(),
    ensures
        r == pair_cost_of(players@, order@, p as int, q as int),
{
    let pp = players[order[p]].points();
    if q == order.len() {
        pp
    } else {
        assert(rank_cmp(&players@[order@[p as int] as int], &players@[order@[q as int] as int]) != Ordering::Less);
        pp - players[order[q]].points()
    }
}

proof fn lemma_step_ok_push(
    ps: Seq<Player>,
    ord: Seq<usize>,
    total: int,
    ext: int,
    rb: Seq<Vec<Step>>,
    row: Vec<Step>,
    n: int,
    s: Step,
    b: u64,
)
    requires
        1 <= n <= rb.len() + 1,
        step_ok(ps, ord, total, ext, rb, n, s, b),
    ensures
        step_ok(ps, ord, total, ext, rb.push(row), n, s, b),
{
    assert(n - 1 > 0 ==> rb.push(row)[n - 2] == rb[n - 2]);
}

/// Every position's partner lies within `ext` places of it.
pub open spec fn within_window(pt: Seq<Option<usize>>, ext: int) -> bool {
    forall|q: int|
        0 <= q < pt.len() ==> q - ext <= (#[trigger] pt[q])->Some_0 && pt[q]->Some_0 <= q + ext
}

/// A pairing of the `total` positions of `ord` that the rules allow, with
/// each pair within `ext` places.
pub open spec fn windowed_partners(
    ps: Seq<Player>,
    ord: Seq<usize>,
    total: int,
    ext: int,
    pt: Seq<Option<usize>>,
) -> bool {
    perfect_partners(ps, ord, total, pt) && within_window(pt, ext)
}

/// Mask `b` at row `n` is the set of the next positions that `pt` pairs with
/// an earlier one.
spec fn mask_matches(b: u64, pt: Seq<Option<usize>>, n: int, ext: int, total: int) -> bool {
    forall|j: int|
        0 <= j < 64 ==> (#[trigger] bit(b, j) <==> (j < ext && n + j < total && pt[n + j]->Some_0 < n))
}

/// The state that follows mask `b` at row `n` along the pairing `pt`.
spec fn succ(b: u64, pt: Seq<Option<usize>>, n: int) -> u64 {
    if b & 1 == 1 {
        b >> 1
    } else {
        (b >> 1) | (1u64 << ((pt[n]->Some_0 - n - 1) as u64))
    }
}

proof fn lemma_succ(
    ps: Seq<Player>,
    ord: Seq<usize>,
    total: int,
    ext: int,
    pt: Seq<Option<usize>>,
    b: u64,
    n: int,
)
    requires
        windowed_partners(ps, ord, total, ext, pt),
        1 <= ext <= 25,
        0 <= n < total,
        total <= usize::MAX,
        b < (1u64 << (ext as u64)),
        mask_matches(b, pt, n, ext, total),
    ensures
        succ(b, pt, n) < (1u64 << (ext as u64)),
        mask_matches(succ(b, pt, n), pt, n + 1, ext, total),
        (b & 1 == 1) == (pt[n]->Some_0 < n),
        b & 1 != 1 ==> {
            let k = pt[n]->Some_0 - n - 1;
            &&& 0 <= k < ext
            &&& n + 1 + k < total
            &&& !bit(b >> 1, k)
            &&& pos_ok(ps, ord, n, n + 1 + k)
        },
{
    lemma_bit_zero(b);
    assert(pt[n] is Some);
    let p = pt[n]->Some_0 as int;
    assert(bit(b, 0) == (p < n));
    if b & 1 == 1 {
        lemma_mask_bounds(b, ext, 0);
        let s = b >> 1;
        assert forall|j: int| 0 <= j < 64 implies (#[trigger] bit(s, j) <==> (j < ext && n + 1 + j < total && pt[n + 1 + j]->Some_0 < n + 1)) by {
            if j < 63 {
                lemma_bit_shift(b, j);
                assert(bit(b, j + 1) <==> (j + 1 < ext && n + j + 1 < total && pt[n + j + 1]->Some_0 < n));
                if n + 1 + j < total {
                    assert(pt[n + 1 + j] is Some);
                    let r = pt[n + 1 + j]->Some_0 as int;
                    if r == n {
                        assert(pt[n] == Some((n + 1 + j) as usize));
                    }
                }
            } else {
                lemma_bit_high(s, ext, j);
            }
        }
    } else {
        let k = p - n - 1;
        assert(p != n);
        assert(0 <= k < ext);
        assert(pt[p] == Some(n as usize));
        lemma_mask_bounds(b, ext, k);
        let s = (b >> 1) | (1u64 << (k as u64));
        assert forall|j: int| 0 <= j < 64 implies (#[trigger] bit(s, j) <==> (j < ext && n + 1 + j < total && pt[n + 1 + j]->Some_0 < n + 1)) by {
            lemma_bit_set(b >> 1, k, j);
            if j < 63 {
                lemma_bit_shift(b, j);
                assert(bit(b, j + 1) <==> (j + 1 < ext && n + j + 1 < total && pt[n + j + 1]->Some_0 < n));
                if n + 1 + j < total && j != k {
                    assert(pt[n + 1 + j] is Some);
                    let r = pt[n + 1 + j]->Some_0 as int;
                    if r == n {
                        assert(pt[n] == Some((n + 1 + j) as usize));
                    }
                    if j == ext - 1 {
                        assert(r >= n);
                    }
                }
            } else {
                lemma_bit_high(b >> 1, ext, j);
            }
        }
        lemma_bit_shift(b, k);
        assert(bit(b, k + 1) <==> (k + 1 < ext && n + k + 1 < total && pt[n + k + 1]->Some_0 < n));
    }
}

/// A mask whose bits below `e` are all clear is empty.
proof fn lemma_mask_empty(b: u64, e: int)
    requires
        0 <= e <= 25,
        b < (1u64 << (e as u64)),
        forall|j: int| 0 <= j < e ==> !#[trigger] bit(b, j),
    ensures
        b == 0,
    decreases e,
{
    if e == 0 {
        assert(b == 0) by (bit_vector)
            requires
                b < (1u64 << 0u64),
        ;
    } else {
        let ee = e as u64;
        let e1 = (e - 1) as u64;
        assert(!bit(b, e - 1));
        assert(b < (1u64 << e1)) by (bit_vector)
            requires
                1 <= ee <= 25,
                e1 + 1 == ee,
                b < (1u64 << ee),
                (b >> e1) & 1 != 1,
        ;
        lemma_mask_empty(b, e - 1);
    }
}

/// Fills row `ni + 1` of the table from row `ni`, whose costs are `cur`.
fn dp_row(
    players: &Vec<Player>,
    order: &Vec<usize>,
    total: usize,
    ext: usize,
    w: u64,
    rb: &Vec<Vec<Step>>,
    cur: &Vec<u128>,
    ni: usize,
) -> (res: (Vec<u128>, Vec<Step>))
    requires
        is_ranked_order(players@, order@),
        total <= order.len() + 1,
        1 <= ext <= 25,
        w == (1u64 << (ext as u64)),
        rb.len() == ni,
        ni < total,
        cur.len() == w,
        forall|b: u64| b < w && cur[b as int] != u128::MAX ==> reached(rb@, ni as int, b),
        forall|b: u64| b < w && cur[b as int] != u128::MAX ==> cur[b as int] <= ni * (u64::MAX as int),
    ensures
        res.0.len() == w,
        res.1.len() == w,
        forall|b: u64| b < w && res.0[b as int] != u128::MAX ==> !(res.1[b as int] is Unreached),
        forall|b: u64| b < w ==> res.0[b as int] == u128::MAX || res.0[b as int] <= (ni + 1) * (u64::MAX as int),
        forall|b: u64| b < w ==> #[trigger] step_value_ok(players@, order@, cur@, ni + 1, res.1[b as int], res.0[b as int]),
        forall|pt: Seq<Option<usize>>, b: u64|
            b < w && cur[b as int] <= prefix_cost(players@, order@, pt, ni as int)
                && #[trigger] mask_matches(b, pt, ni as int, ext as int, total as int)
                && windowed_partners(players@, order@, total as int, ext as int, pt)
                ==> res.0[succ(b, pt, ni as int) as int] <= prefix_cost(players@, order@, pt, ni + 1),
        forall|b: u64|
            b < w ==> step_ok(players@, order@, total as int, ext as int, rb@, ni + 1, res.1[b as int], b),
{
    let ghost ps = players@;
    let ghost ord = order@;
    let mut next: Vec<u128> = Vec::new();
    let mut row: Vec<Step> = Vec::new();
    let mut b: u64 = 0;
    while b < w
        invariant
            b <= w,
            next.len() == b,
            row.len() == b,
            forall|x: int| 0 <= x < b ==> #[trigger] next[x] == u128::MAX,
            forall|x: int| 0 <= x < b ==> #[trigger] row[x] is Unreached,
        decreases w - b,
    {
        next.push(u128::MAX);
        row.push(Step::Unreached);
        b = b + 1;
        assert forall|x: int| 0 <= x < b implies #[trigger] next[x] == u128::MAX by {
            if x < b - 1 {
                assert(next@[x] == next@.drop_last()[x]);
            }
        }
        assert forall|x: int| 0 <= x < b implies #[trigger] row[x] is Unreached by {
            if x < b - 1 {
                assert(row@[x] == row@.drop_last()[x]);
            }
        }
    }
    assert forall|b: u64| b < w implies step_ok(ps, ord, total as int, ext as int, rb@, ni + 1, row[b as int], b) by {
        assert(row[b as int] is Unreached);
    }
    let mut bi: u64 = 0;
    while bi < w
        invariant
            is_ranked_order(ps, ord),
            ps == players@,
            ord == order@,
            total <= order.len() + 1,
            1 <= ext <= 25,
            w == (1u64 << (ext as u64)),
            rb.len() == ni,
            ni < total,
            cur.len() == w,
            forall|b: u64| b < w && cur[b as int] != u128::MAX ==> reached(rb@, ni as int, b),
            forall|b: u64| b < w && cur[b as int] != u128::MAX ==> cur[b as int] <= ni * (u64::MAX as int),
            forall|b: u64| b < w ==> next[b as int] == u128::MAX || next[b as int] <= (ni + 1) * (u64::MAX as int),
            forall|b: u64| b < w ==> #[trigger] step_value_ok(ps, ord, cur@, ni + 1, row[b as int], next[b as int]),
            bi <= w,
            forall|pt: Seq<Option<usize>>, b: u64|
                b < bi && cur[b as int] <= prefix_cost(ps, ord, pt, ni as int)
                    && #[trigger] mask_matches(b, pt, ni as int, ext as int, total as int)
                    && windowed_partners(ps, ord, total as int, ext as int, pt)
                    ==> next[succ(b, pt, ni as int) as int] <= prefix_cost(ps, ord, pt, ni + 1),
            next.len() == w,
            row.len() == w,
            forall|b: u64| b < w && next[b as int] != u128::MAX ==> !(row[b as int] is Unreached),
            forall|b: u64| b < w ==> step_ok(ps, ord, total as int, ext as int, rb@, ni + 1, row[b as int], b),
        decreases w - bi,
    {
        let c = cur[bi as usize];
        let ghost snap0 = next@;
        if c != u128::MAX {
            if bi & 1 == 1 {
                let nb = bi >> 1;
                proof {
                    lemma_mask_bounds(bi, ext as int, 0);
                }
                if c < next[nb as usize] {
                    next.set(nb as usize, c);
                    row.set(nb as usize, Step::Skip(bi));
                }
                assert(next[nb as int] <= c);
            } else {
                assert(bi & 1 == 0) by (bit_vector)
                    requires
                        bi & 1 != 1,
                ;
                proof {
                    assert forall|pt: Seq<Option<usize>>|
                        #[trigger] mask_matches(bi, pt, ni as int, ext as int, total as int)
                            && windowed_partners(ps, ord, total as int, ext as int, pt)
                            implies pt[ni as int]->Some_0 - ni - 1 >= 0 by {
                        lemma_succ(ps, ord, total as int, ext as int, pt, bi, ni as int);
                    }
                }
                let mut pi: usize = 0;
                while pi < ext && pi < total - ni - 1
                    invariant
                        forall|x: int| 0 <= x < w ==> #[trigger] next@[x] <= snap0[x],
                        forall|pt: Seq<Option<usize>>, b: u64|
                            b < bi && cur[b as int] <= prefix_cost(ps, ord, pt, ni as int)
                                && #[trigger] mask_matches(b, pt, ni as int, ext as int, total as int)
                                && windowed_partners(ps, ord, total as int, ext as int, pt)
                                ==> next[succ(b, pt, ni as int) as int] <= prefix_cost(ps, ord, pt, ni + 1),
                        forall|pt: Seq<Option<usize>>|
                            #[trigger] mask_matches(bi, pt, ni as int, ext as int, total as int)
                                && windowed_partners(ps, ord, total as int, ext as int, pt)
                                && c <= prefix_cost(ps, ord, pt, ni as int)
                                && pt[ni as int]->Some_0 - ni - 1 < pi
                                ==> next[succ(bi, pt, ni as int) as int] <= prefix_cost(ps, ord, pt, ni + 1),
                        is_ranked_order(ps, ord),
                        ps == players@,
                        ord == order@,
                        total <= order.len() + 1,
                        1 <= ext <= 25,
                        w == (1u64 << (ext as u64)),
                        rb.len() == ni,
                        ni < total,
                        bi < w,
                        cur.len() == w,
                        bi & 1 == 0,
                        reached(rb@, ni as int, bi),
                        c == cur[bi as int],
                        c != u128::MAX,
                        c <= ni * (u64::MAX as int),
                        forall|b: u64| b < w ==> next[b as int] == u128::MAX || next[b as int] <= (ni + 1) * (u64::MAX as int),
                        forall|b: u64| b < w ==> #[trigger] step_value_ok(ps, ord, cur@, ni + 1, row[b as int], next[b as int]),
                        next.len() == w,
                        row.len() == w,
                        forall|b: u64| b < w && next[b as int] != u128::MAX ==> !(row[b as int] is Unreached),
                        forall|b: u64| b < w ==> step_ok(ps, ord, total as int, ext as int, rb@, ni + 1, row[b as int], b),
                    decreases ext - pi,
                {
                    let ghost snap = next@;
                    let ppi = ni + pi + 1;
                    proof {
                        let y = (bi >> 1) >> (pi as u64);
                        assert(y & 1 == 0 || y & 1 == 1) by (bit_vector);
                    }
                    if ((bi >> 1) >> (pi as u64)) & 1 == 0 {
                        let nb = (bi >> 1) | (1u64 << (pi as u64));
                        proof {
                            lemma_mask_bounds(bi, ext as int, pi as int);
                        }
                        if legal_pair(players, order, ni, ppi) {
                            let cost = pair_cost(players, order, ni, ppi);
                            let v = c + cost as u128;
                            if v < next[nb as usize] {
                                next.set(nb as usize, v);
                                row.set(nb as usize, Step::Pair(bi, pi));
                            }
                            assert(next[nb as int] <= v);
                        }
                    }
                    proof {
                        assert forall|x: int| 0 <= x < w implies #[trigger] next@[x] <= snap[x] by {}
                        assert forall|x: int| 0 <= x < w implies #[trigger] next@[x] <= snap0[x] by {
                            assert(snap[x] <= snap0[x]);
                        }
                        assert forall|pt: Seq<Option<usize>>|
                            #[trigger] mask_matches(bi, pt, ni as int, ext as int, total as int)
                                && windowed_partners(ps, ord, total as int, ext as int, pt)
                                && c <= prefix_cost(ps, ord, pt, ni as int)
                                && pt[ni as int]->Some_0 - ni - 1 < pi + 1
                                implies next[succ(bi, pt, ni as int) as int] <= prefix_cost(ps, ord, pt, ni + 1) by {
                            lemma_succ(ps, ord, total as int, ext as int, pt, bi, ni as int);
                            let sx = succ(bi, pt, ni as int);
                            if pt[ni as int]->Some_0 - ni - 1 < pi {
                                assert(snap[sx as int] <= prefix_cost(ps, ord, pt, ni + 1));
                            } else {
                                assert(sx == (bi >> 1) | (1u64 << (pi as u64)));
                                assert(!bit(bi >> 1, pi as int));
                                assert(pos_ok(ps, ord, ni as int, ppi as int));
                            }
                        }
                        assert forall|pt: Seq<Option<usize>>, b: u64|
                            b < bi && cur[b as int] <= prefix_cost(ps, ord, pt, ni as int)
                                && #[trigger] mask_matches(b, pt, ni as int, ext as int, total as int)
                                && windowed_partners(ps, ord, total as int, ext as int, pt)
                                implies next[succ(b, pt, ni as int) as int] <= prefix_cost(ps, ord, pt, ni + 1) by {
                            lemma_succ(ps, ord, total as int, ext as int, pt, b, ni as int);
                            assert(snap[succ(b, pt, ni as int) as int] <= prefix_cost(ps, ord, pt, ni + 1));
                        }
                    }
                    pi = pi + 1;
                }
                proof {
                    assert forall|pt: Seq<Option<usize>>|
                        #[trigger] mask_matches(bi, pt, ni as int, ext as int, total as int)
                            && windowed_partners(ps, ord, total as int, ext as int, pt)
                            && c <= prefix_cost(ps, ord, pt, ni as int)
                            implies next[succ(bi, pt, ni as int) as int] <= prefix_cost(ps, ord, pt, ni + 1) by {
                        lemma_succ(ps, ord, total as int, ext as int, pt, bi, ni as int);
                    }
                }
            }
        }
        proof {
            assert forall|x: int| 0 <= x < w implies #[trigger] next@[x] <= snap0[x] by {}
            assert forall|pt: Seq<Option<usize>>, b: u64|
                b < bi + 1 && cur[b as int] <= prefix_cost(ps, ord, pt, ni as int)
                    && #[trigger] mask_matches(b, pt, ni as int, ext as int, total as int)
                    && windowed_partners(ps, ord, total as int, ext as int, pt)
                    implies next[succ(b, pt, ni as int) as int] <= prefix_cost(ps, ord, pt, ni + 1) by {
                lemma_succ(ps, ord, total as int, ext as int, pt, b, ni as int);
                if b < bi {
                    assert(snap0[succ(b, pt, ni as int) as int] <= prefix_cost(ps, ord, pt, ni + 1));
                } else {
                    lemma_prefix_cost_bound(ps, ord, pt, ni as int);
                }
            }
        }
        bi = bi + 1;
    }
    (next, row)
}

/// `pt[q]` is the partner of position `q`: every position has one, the
/// relation is symmetric, and each pair is allowed.
pub open spec fn perfect_partners(ps: Seq<Player>, ord: Seq<usize>, total: int, pt: Seq<Option<usize>>) -> bool {
    &&& pt.len() == total
    &&& forall|q: int|
        0 <= q < total ==> {
            &&& (#[trigger] pt[q]) is Some
            &&& pt[q]->Some_0 < total
            &&& pt[q]->Some_0 != q
            &&& pt[pt[q]->Some_0 as int] == Some(q as usize)
            &&& pos_ok(ps, ord, q, pt[q]->Some_0 as int)
        }
}

/// The minimum-cost pairing of the `total` positions, each paired within
/// `ext` places further on, if there is one.
fn dp_partners(players: &Vec<Player>, order: &Vec<usize>, total: usize, ext: usize) -> (r: Option<
    Vec<Option<usize>>,
>)
    requires
        is_ranked_order(players@, order@),
        total <= order.len() + 1,
        1 <= ext <= 25,
    ensures
        r matches Some(pt) ==> {
            &&& windowed_partners(players@, order@, total as int, ext as int, pt@)
            &&& forall|other: Seq<Option<usize>>|
                #[trigger] windowed_partners(players@, order@, total as int, ext as int, other)
                    ==> prefix_cost(players@, order@, pt@, total as int) <= prefix_cost(
                    players@,
                    order@,
                    other,
                    total as int,
                )
        },
        r is None ==> forall|pt: Seq<Option<usize>>|
            !windowed_partners(players@, order@, total as int, ext as int, pt),
{
    let ghost ps = players@;
    let ghost ord = order@;
    let w: u64 = 1u64 << (ext as u64);
    assert(1u64 <= w) by (bit_vector)
        requires
            w == (1u64 << (ext as u64)),
            ext <= 25,
    ;
    let mut cur: Vec<u128> = Vec::new();
    cur.push(0u128);
    let mut b: u64 = 1;
    while b < w
        invariant
            1 <= b <= w,
            cur.len() == b,
            cur[0] == 0,
            forall|x: int| 1 <= x < b ==> #[trigger] cur[x] == u128::MAX,
        decreases w - b,
    {
        cur.push(u128::MAX);
        b = b + 1;
        assert forall|x: int| 1 <= x < b implies #[trigger] cur[x] == u128::MAX by {
            if x < b - 1 {
                assert(cur@[x] == cur@.drop_last()[x]);
            }
        }
    }
    proof {
        assert forall|pt: Seq<Option<usize>>|
            #[trigger] windowed_partners(ps, ord, total as int, ext as int, pt) implies exists|b: u64|
                b < w && cur[b as int] <= prefix_cost(ps, ord, pt, 0)
                    && #[trigger] mask_matches(b, pt, 0, ext as int, total as int) by {
            assert forall|j: int| 0 <= j < 64 implies (#[trigger] bit(0u64, j) <==> (j < ext && 0 + j < total && pt[0 + j]->Some_0 < 0)) by {
                let jj = j as u64;
                assert((0u64 >> jj) & 1 == 0) by (bit_vector);
            }
            assert(mask_matches(0u64, pt, 0, ext as int, total as int));
        }
    }
    let ghost mut dps: Seq<Seq<u128>> = seq![cur@];
    let mut rb: Vec<Vec<Step>> = Vec::new();
    let mut ni: usize = 0;
    while ni < total
        invariant
            dps.len() == ni + 1,
            dps[ni as int] == cur@,
            dps[0][0] == 0,
            forall|n: int, b: u64|
                1 <= n <= ni && b < w ==> #[trigger] step_value_ok(ps, ord, dps[n - 1], n, rb@[n - 1]@[b as int], dps[n][b as int]),
            is_ranked_order(ps, ord),
            ps == players@,
            ord == order@,
            total <= order.len() + 1,
            1 <= ext <= 25,
            w == (1u64 << (ext as u64)),
            ni <= total,
            rb.len() == ni,
            cur.len() == w,
            forall|b: u64| b < w && cur[b as int] != u128::MAX ==> reached(rb@, ni as int, b),
            forall|b: u64| b < w && cur[b as int] != u128::MAX ==> cur[b as int] <= ni * (u64::MAX as int),
            table_ok(ps, ord, total as int, ext as int, rb@),
            forall|pt: Seq<Option<usize>>|
                #[trigger] windowed_partners(ps, ord, total as int, ext as int, pt) ==> exists|b: u64|
                    b < w && cur[b as int] <= prefix_cost(ps, ord, pt, ni as int)
                        && #[trigger] mask_matches(b, pt, ni as int, ext as int, total as int),
        decreases total - ni,
    {
        let (next, row) = dp_row(players, order, total, ext, w, &rb, &cur, ni);
        proof {
            assert forall|pt: Seq<Option<usize>>|
                #[trigger] windowed_partners(ps, ord, total as int, ext as int, pt) implies exists|b: u64|
                    b < w && next[b as int] <= prefix_cost(ps, ord, pt, ni + 1)
                        && #[trigger] mask_matches(b, pt, ni + 1, ext as int, total as int) by {
                let b0 = choose|b: u64|
                    b < w && cur[b as int] <= prefix_cost(ps, ord, pt, ni as int)
                        && #[trigger] mask_matches(b, pt, ni as int, ext as int, total as int);
                lemma_succ(ps, ord, total as int, ext as int, pt, b0, ni as int);
                let b1 = succ(b0, pt, ni as int);
                assert(next[b1 as int] <= prefix_cost(ps, ord, pt, ni + 1) && mask_matches(b1, pt, ni + 1, ext as int, total as int));
            }
        }
        let ghost old_rb = rb@;
        rb.push(row);
        proof {
            assert forall|n: int| 1 <= n <= rb@.len() implies {
                &&& (#[trigger] rb@[n - 1])@.len() == (1u64 << (ext as u64))
                &&& forall|b: u64|
                    b < (1u64 << (ext as u64)) ==> #[trigger] step_ok(ps, ord, total as int, ext as int, rb@, n, rb@[n - 1]@[b as int], b)
            } by {
                assert forall|b: u64| b < (1u64 << (ext as u64)) implies #[trigger] step_ok(ps, ord, total as int, ext as int, rb@, n, rb@[n - 1]@[b as int], b) by {
                    if n <= old_rb.len() {
                        assert(step_ok(ps, ord, total as int, ext as int, old_rb, n, old_rb[n - 1]@[b as int], b));
                    }
                    lemma_step_ok_push(ps, ord, total as int, ext as int, old_rb, row, n, rb@[n - 1]@[b as int], b);
                }
            }
        }
        proof {
            let old_dps = dps;
            dps = dps.push(next@);
            assert forall|n: int, b: u64|
                1 <= n <= ni + 1 && b < w implies #[trigger] step_value_ok(ps, ord, dps[n - 1], n, rb@[n - 1]@[b as int], dps[n][b as int]) by {
                if n <= ni {
                    assert(step_value_ok(ps, ord, old_dps[n - 1], n, old_rb[n - 1]@[b as int], old_dps[n][b as int]));
                }
            }
        }
        cur = next;
        ni = ni + 1;
    }
    if cur[0] == u128::MAX {
        proof {
            assert forall|pt: Seq<Option<usize>>| !windowed_partners(ps, ord, total as int, ext as int, pt) by {
                if windowed_partners(ps, ord, total as int, ext as int, pt) {
                    let b0 = choose|b: u64|
                        b < w && cur[b as int] <= prefix_cost(ps, ord, pt, total as int)
                            && #[trigger] mask_matches(b, pt, total as int, ext as int, total as int);
                    assert forall|j: int| 0 <= j < ext implies !#[trigger] bit(b0, j) by {}
                    lemma_mask_empty(b0, ext as int);
                    lemma_prefix_cost_bound(ps, ord, pt, total as int);
                }
            }
        }
        return None;
    }
    let mut pt: Vec<Option<usize>> = Vec::new();
    let mut q: usize = 0;
    while q < total
        invariant
            q <= total,
            pt.len() == q,
            forall|x: int| 0 <= x < q ==> (#[trigger] pt[x]) is None,
        decreases total - q,
    {
        pt.push(None);
        q = q + 1;
        assert forall|x: int| 0 <= x < q implies (#[trigger] pt[x]) is None by {
            if x < q - 1 {
                assert(pt@[x] == pt@.drop_last()[x]);
            }
        }
    }
    let mut n: usize = total;
    let mut b: u64 = 0;
    while n > 0
        invariant
            ps == players@,
            ord == order@,
            1 <= ext <= 25,
            w == (1u64 << (ext as u64)),
            n <= total,
            rb.len() == total,
            b < w,
            reached(rb@, n as int, b),
            table_ok(ps, ord, total as int, ext as int, rb@),
            pt.len() == total,
            dps.len() == total + 1,
            dps[0][0] == 0,
            forall|n: int, b: u64|
                1 <= n <= total && b < w ==> #[trigger] step_value_ok(ps, ord, dps[n - 1], n, rb@[n - 1]@[b as int], dps[n][b as int]),
            dps[total as int][0] == dps[n as int][b as int] + range_cost(ps, ord, pt@, n as int, total as int),
            forall|x: int| 0 <= x < total && (#[trigger] pt[x]) is Some ==> x - ext <= pt[x]->Some_0 <= x + ext,
            forall|x: int| 0 <= x < n ==> (#[trigger] pt[x]) is None,
            forall|x: int| n <= x < total ==> ((#[trigger] pt[x]) is Some <==> !bit(b, x - n)),
            forall|x: int|
                0 <= x < total && (#[trigger] pt[x]) is Some ==> {
                    &&& pt[x]->Some_0 < total
                    &&& pt[x]->Some_0 != x
                    &&& pt[pt[x]->Some_0 as int] == Some(x as usize)
                    &&& pos_ok(ps, ord, x, pt[x]->Some_0 as int)
                },
        decreases n,
    {
        assert(step_ok(ps, ord, total as int, ext as int, rb@, n as int, rb@[n - 1]@[b as int], b));
        match rb[n - 1][b as usize] {
            Step::Unreached => {
                assert(false);
                return None;
            },
            Step::Skip(prev) => {
                proof {
                    assert(rb@[n - 1]@[b as int] == Step::Skip(prev));
                    assert(step_value_ok(ps, ord, dps[n - 1], n as int, rb@[n - 1]@[b as int], dps[n as int][b as int]));
                    assert(prev < w);
                    lemma_bit_zero(prev);
                    assert forall|x: int| n - 1 <= x < total implies ((#[trigger] pt[x]) is Some <==> !bit(prev, x - (n - 1))) by {
                        if x >= n {
                            if x - n < 63 {
                                lemma_bit_shift(prev, x - n);
                            } else {
                                lemma_bit_high(b, ext as int, x - n);
                                lemma_bit_high(prev, ext as int, x - n + 1);
                            }
                        }
                    }
                }
                n = n - 1;
                b = prev;
            },
            Step::Pair(prev, k) => {
                let i = n - 1;
                let r = n + k;
                proof {
                    lemma_bit_set(prev >> 1, k as int, k as int);
                    assert(pt[r as int] is None);
                    assert(step_value_ok(ps, ord, dps[n - 1], n as int, rb@[n - 1]@[b as int], dps[n as int][b as int]));
                }
                let ghost before = pt@;
                pt.set(i, Some(r));
                pt.set(r, Some(i));
                proof {
                    lemma_range_cost_frame(ps, ord, before, pt@, n as int, total as int);
                }
                proof {
                    lemma_bit_zero(prev);
                    assert forall|x: int| n - 1 <= x < total implies ((#[trigger] pt[x]) is Some <==> !bit(prev, x - (n - 1))) by {
                        if x >= n {
                            if x - n < 63 {
                                lemma_bit_shift(prev, x - n);
                                lemma_bit_set(prev >> 1, k as int, x - n);
                            } else {
                                lemma_bit_high(b, ext as int, x - n);
                                lemma_bit_high(prev, ext as int, x - n + 1);
                            }
                        }
                    }
                }
                n = n - 1;
                b = prev;
            },
        }
    }
    proof {
        assert forall|x: int| 0 <= x < total implies (#[trigger] pt[x]) is Some by {
            if x < 64 {
                let xx = x as u64;
                assert((0u64 >> xx) & 1 == 0) by (bit_vector);
            }
        }
        lemma_prefix_is_range(ps, ord, pt@, total as int);
        assert forall|other: Seq<Option<usize>>|
            #[trigger] windowed_partners(ps, ord, total as int, ext as int, other)
                implies prefix_cost(ps, ord, pt@, total as int) <= prefix_cost(ps, ord, other, total as int) by {
            let b0 = choose|b: u64|
                b < w && cur[b as int] <= prefix_cost(ps, ord, other, total as int)
                    && #[trigger] mask_matches(b, other, total as int, ext as int, total as int);
            assert forall|j: int| 0 <= j < ext implies !#[trigger] bit(b0, j) by {}
            lemma_mask_empty(b0, ext as int);
        }
    }
    Some(pt)
}

/// `a` gives each player the player in the ranking position that `pt` pairs
/// its own with, and nobody to the one paired with the bye slot or to a
/// player not in the ranking.
pub open spec fn assigned_from(ps: Seq<Player>, ord: Seq<usize>, pt: Seq<Option<usize>>, a: Seq<Option<usize>>) -> bool {
    &&& a.len() == ps.len()
    &&& forall|p: int|
        0 <= p < ord.len() ==> a[#[trigger] ord[p] as int] == if pt[p]->Some_0 < ord.len() {
            Some(ord[pt[p]->Some_0 as int])
        } else {
            None
        }
    &&& forall|i: int| 0 <= i < a.len() && !ord.contains(i as usize) ==> a[i] is None
}

/// Opponents by roster position from partners by ranking position; the
/// player paired with the bye slot gets nobody.
fn assignment_from_partners(
    players: &Vec<Player>,
    order: &Vec<usize>,
    total: usize,
    pt: &Vec<Option<usize>>,
) -> (a: Vec<Option<usize>>)
    requires
        is_matchable_order(players@, order@),
        total == order.len() || total == order.len() + 1,
        perfect_partners(players@, order@, total as int, pt@),
    ensures
        valid_assignment(players@, a@),
        assigned_from(players@, order@, pt@, a@),
{
    let ghost ps = players@;
    let ghost ord = order@;
    let n = players.len();
    let active = order.len();
    let mut a: Vec<Option<usize>> = Vec::new();
    let mut i: usize = 0;
    while i < n
        invariant
            n == players.len(),
            i <= n,
            a.len() == i,
            forall|x: int| 0 <= x < i ==> (#[trigger] a[x]) is None,
        decreases n - i,
    {
        a.push(None);
        i = i + 1;
        assert forall|x: int| 0 <= x < i implies (#[trigger] a[x]) is None by {
            if x < i - 1 {
                assert(a@[x] == a@.drop_last()[x]);
            }
        }
    }
    let mut p: usize = 0;
    while p < active
        invariant
            ps == players@,
            ord == order@,
            n == players.len(),
            active == order.len(),
            is_matchable_order(ps, ord),
            total == active || total == active + 1,
            perfect_partners(ps, ord, total as int, pt@),
            p <= active,
            a.len() == n,
            forall|x: int|
                0 <= x < p ==> a[#[trigger] ord[x] as int] == if pt[x]->Some_0 < active {
                    Some(ord[pt[x]->Some_0 as int])
                } else {
                    None
                },
            forall|i: int| 0 <= i < n && (forall|x: int| 0 <= x < p ==> #[trigger] ord[x] != i) ==> (#[trigger] a[i]) is None,
        decreases active - p,
    {
        assert(pt[p as int] is Some);
        let q = pt[p].unwrap();
        if q < active {
            a.set(order[p], Some(order[q]));
        }
        p = p + 1;
        assert forall|x: int|
            0 <= x < p implies a[#[trigger] ord[x] as int] == if pt[x]->Some_0 < active {
                Some(ord[pt[x]->Some_0 as int])
            } else {
                None
            } by {
            if x < p - 1 {
                assert(ord[x] != ord[p - 1]);
            }
        }
        assert forall|i: int| 0 <= i < n && (forall|x: int| 0 <= x < p ==> #[trigger] ord[x] != i) implies (#[trigger] a[i]) is None by {
            assert(ord[p - 1] != i);
        }
    }
    proof {
        assert forall|i: int| 0 <= i < n && !ps[i].dropped implies exists|x: int| 0 <= x < active && #[trigger] ord[x] == i by {
            assert(ord.contains(i as usize));
        }
        assert forall|i: int| 0 <= i < n && (#[trigger] ps[i]).dropped implies a[i] is None by {
            assert forall|x: int| 0 <= x < active implies #[trigger] ord[x] != i by {}
        }
        assert forall|i: int| 0 <= i < n && (#[trigger] a[i]) is Some implies {
            let j = a[i]->Some_0;
            &&& j < n
            &&& j != i
            &&& a[j as int] == Some(i as usize)
            &&& !had_matched(ps[i].matching_list@, Some(j))
        } by {
            if forall|x: int| 0 <= x < active ==> #[trigger] ord[x] != i {
            } else {
                let x = choose|x: int| 0 <= x < active && #[trigger] ord[x] == i;
                let y = pt[x]->Some_0 as int;
                assert(pt[y] == Some(x as usize));
                assert(ord[y] != ord[x]);
            }
        }
        assert forall|i: int| 0 <= i < n && #[trigger] is_bye(ps, a@, i) implies !had_matched(ps[i].matching_list@, None) by {
            let x = choose|x: int| 0 <= x < active && #[trigger] ord[x] == i;
            assert(pt[x]->Some_0 >= active);
        }
        assert forall|i: int, j: int| 0 <= i < n && 0 <= j < n && #[trigger] is_bye(ps, a@, i) && #[trigger] is_bye(ps, a@, j) implies i == j by {
            let x = choose|x: int| 0 <= x < active && #[trigger] ord[x] == i;
            let y = choose|x: int| 0 <= x < active && #[trigger] ord[x] == j;
            assert(pt[x]->Some_0 >= active);
            assert(pt[y]->Some_0 >= active);
            assert(pt[active as int] == Some(x as usize));
            assert(pt[active as int] == Some(y as usize));
        }
        assert forall|i: int| 0 <= i < a.len() && !ord.contains(i as usize) implies a[i] is None by {
            assert forall|x: int| 0 <= x < active implies #[trigger] ord[x] != i by {
                if ord[x] == i {
                    assert(ord.contains(i as usize));
                }
            }
        }
    }
    a
}

/// Ranking positions to pair: one per player still in the event, and one
/// more for the bye when their number is odd.
pub open spec fn slot_count(ord: Seq<usize>) -> int {
    (ord.len() + ord.len() % 2) as int
}

/// `a` is what the dynamic program gives for the ranking `ord`: the
/// assignment of a cheapest pairing within the narrowest window, from 6
/// places up, that admits one.
pub open spec fn is_windowed_optimum(ps: Seq<Player>, ord: Seq<usize>, a: Seq<Option<usize>>) -> bool {
    exists|ext: int, pt: Seq<Option<usize>>|
        {
            &&& 6 <= ext <= 25
            &&& #[trigger] windowed_partners(ps, ord, slot_count(ord), ext, pt)
            &&& forall|other: Seq<Option<usize>>|
                #[trigger] windowed_partners(ps, ord, slot_count(ord), ext, other) ==> prefix_cost(
                    ps,
                    ord,
                    pt,
                    slot_count(ord),
                ) <= prefix_cost(ps, ord, other, slot_count(ord))
            &&& forall|e: int, other: Seq<Option<usize>>|
                6 <= e < ext ==> !#[trigger] windowed_partners(ps, ord, slot_count(ord), e, other)
            &&& assigned_from(ps, ord, pt, a)
        }
}

/// Pairs the players still in the event by a dynamic program over the
/// ranking, best first, that keeps pairings between close ranks and byes
/// low in the standings: each player may only be paired within a window of
/// the next few in rank, and the window widens from 6 to 25 until a pairing
/// is found. It fails only when, in the ranking it used, no allowed pairing
/// keeps every pair within 25 places (the bye counted as the last place).
pub fn matching_build(players: &Vec<Player>) -> (r: Result<Vec<Option<usize>>, PairingError>)
    requires
        players.len() < usize::MAX,
    ensures
        r matches Ok(a) ==> valid_assignment(players@, a@),
        r matches Ok(a) ==> exists|ord: Seq<usize>|
            #[trigger] is_ranked_order(players@, ord) && is_windowed_optimum(players@, ord, a@),
        r is Err ==> exists|ord: Seq<usize>|
            #[trigger] is_ranked_order(players@, ord) && forall|pt: Seq<Option<usize>>|
                !windowed_partners(players@, ord, slot_count(ord), 25, pt),
{
    let order = filter_sorted_matchable_players(players);
    let active = order.len();
    let total = if active % 2 == 0 {
        active
    } else {
        active + 1
    };
    let mut ext: usize = 6;
    while ext < 26
        invariant
            is_ranked_order(players@, order@),
            active == order.len(),
            total == slot_count(order@),
            total <= order.len() + 1,
            6 <= ext <= 26,
            forall|e: int, other: Seq<Option<usize>>|
                6 <= e < ext ==> !#[trigger] windowed_partners(players@, order@, total as int, e, other),
        decreases 26 - ext,
    {
        match dp_partners(players, &order, total, ext) {
            Some(pt) => {
                let a = assignment_from_partners(players, &order, total, &pt);
                proof {
                    assert(windowed_partners(players@, order@, slot_count(order@), ext as int, pt@));
                    assert(is_windowed_optimum(players@, order@, a@));
                    assert(is_ranked_order(players@, order@));
                }
                return Ok(a);
            },
            None => {},
        }
        ext = ext + 1;
    }
    assert forall|pt: Seq<Option<usize>>| !windowed_partners(players@, order@, total as int, 25, pt) by {
        assert(!windowed_partners(players@, order@, total as int, 25, pt));
    }
    assert(is_ranked_order(players@, order@));
    Err(PairingError::NoSatisfyingMatching)
}

/// The players still in the event.
pub open spec fn active_players(ps: Seq<Player>) -> Set<int> {
    Set::new(|i: int| 0 <= i < ps.len() && !ps[i].dropped)
}

/// A valid assignment is symmetric: `i` is given `j` exactly when `j` is
/// given `i`.
pub proof fn lemma_assignment_symmetric(ps: Seq<Player>, a: Seq<Option<usize>>, i: int, j: int)
    requires
        valid_assignment(ps, a),
        0 <= i < a.len(),
        0 <= j < a.len(),
    ensures
        a[i] == Some(j as usize) <==> a[j] == Some(i as usize),
{
    if a[j] == Some(i as usize) {
        assert(a[j] is Some);
    }
}

/// A valid assignment never pairs a player with one it has met, and gives a
/// bye only to a player who has had none.
pub proof fn lemma_assignment_no_rematch(ps: Seq<Player>, a: Seq<Option<usize>>, i: int)
    requires
        valid_assignment(ps, a),
        0 <= i < a.len(),
    ensures
        a[i] matches Some(j) ==> !had_matched(ps[i].matching_list@, Some(j)),
        !ps[i].dropped && a[i] is None ==> !had_matched(ps[i].matching_list@, None),
{
    if a[i] is Some {
    }
    if !ps[i].dropped && a[i] is None {
        assert(is_bye(ps, a, i));
    }
}

/// A finite set on which `f` pairs each element with another has an even
/// number of elements.
proof fn lemma_paired_set_even(s: Set<int>, f: spec_fn(int) -> int)
    requires
        s.finite(),
        forall|x: int| #[trigger] s.contains(x) ==> s.contains(f(x)) && f(x) != x && f(f(x)) == x,
    ensures
        s.len() % 2 == 0,
    decreases s.len(),
{
    broadcast use vstd::set::group_set_axioms;

    if s.len() != 0 {
        let x = s.choose();
        let rest = s.remove(x).remove(f(x));
        assert forall|y: int| #[trigger] rest.contains(y) implies rest.contains(f(y)) && f(y) != y
            && f(f(y)) == y by {
            assert(s.contains(f(y)));
            if f(y) == x {
                assert(y == f(x));
            }
        }
        lemma_paired_set_even(rest, f);
    }
}

/// Exactly one player is left without an opponent when an odd number of
/// players are still in the event, and none when it is even.
pub proof fn lemma_bye_uniqueness(ps: Seq<Player>, a: Seq<Option<usize>>)
    requires
        valid_assignment(ps, a),
    ensures
        active_players(ps).len() % 2 == 1 ==> exists|i: int|
            0 <= i < a.len() && is_bye(ps, a, i) && forall|j: int|
                0 <= j < a.len() && #[trigger] is_bye(ps, a, j) ==> j == i,
        active_players(ps).len() % 2 == 0 ==> forall|i: int|
            0 <= i < a.len() ==> !#[trigger] is_bye(ps, a, i),
{
    broadcast use vstd::set::group_set_axioms;

    let act = active_players(ps);
    vstd::set_lib::lemma_int_range(0, ps.len() as int);
    vstd::set_lib::lemma_len_subset(act, vstd::set_lib::set_int_range(0, ps.len() as int));
    let paired = Set::new(|i: int| 0 <= i < ps.len() && !ps[i].dropped && a[i] is Some);
    let f = |x: int| a[x]->Some_0 as int;
    vstd::set_lib::lemma_len_subset(paired, act);
    assert forall|x: int| #[trigger] paired.contains(x) implies paired.contains(f(x)) && f(x) != x
        && f(f(x)) == x by {
        assert(a[x] is Some);
        let j = a[x]->Some_0 as int;
        assert(a[j] == Some(x as usize));
        if ps[j].dropped {
            assert(a[j] is None);
        }
    }
    lemma_paired_set_even(paired, f);
    if exists|i: int| 0 <= i < a.len() && is_bye(ps, a, i) {
        let b = choose|i: int| 0 <= i < a.len() && is_bye(ps, a, i);
        assert forall|x: int| act.remove(b).contains(x) implies #[trigger] paired.contains(x) by {
            if a[x] is None {
                assert(is_bye(ps, a, x));
            }
        }
        assert(paired =~= act.remove(b));
    } else {
        assert forall|x: int| act.contains(x) implies #[trigger] paired.contains(x) by {
            if a[x] is None {
                assert(is_bye(ps, a, x));
            }
        }
        assert(paired =~= act);
    }
}

} // verus!
