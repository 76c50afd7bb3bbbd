use vstd::prelude::*;
use core::cmp::Ordering;
use crate::concepts::{Mod, declares_ordering_on};
use crate::error::ModDataErr;

verus! {

/// Order of two names under lexical_sort's natural, case-folding, alphanumeric-only
/// comparison.
pub uninterp spec fn natural_order(a: Seq<char>, b: Seq<char>) -> Ordering;

/// Number of ASCII digits in `s`.
pub open spec fn digit_count(s: Seq<char>) -> nat
    decreases s.len(),
{
    if s.len() == 0 {
        0
    } else {
        digit_count(s.drop_last()) + if '0' <= s.last() <= '9' {
            1nat
        } else {
            0nat
        }
    }
}

/// The natural comparison sums each run of digits in a `u64`. It keeps ASCII
/// characters as they are (but for case) and may turn any other character into
/// several ASCII digits; so an ASCII name with fewer than twenty digits is one
/// whose runs cannot overflow.
pub open spec fn comparable_name(s: Seq<char>) -> bool {
    &&& forall|k: int| 0 <= k < s.len() ==> (#[trigger] s[k]) <= '\x7f'
    &&& digit_count(s) < 20
}

/// `a` sorts strictly before `b` in natural order; names that the comparison
/// cannot take are not ordered against anything.
pub open spec fn name_precedes(a: Seq<char>, b: Seq<char>) -> bool {
    comparable_name(a) && comparable_name(b) && natural_order(a, b) == Ordering::Less
}

/// Relies on `lexical_sort::natural_lexical_only_alnum_cmp`: the result depends on
/// the two strings alone. It panics on digit runs that overflow a `u64`, which
/// ASCII names with fewer than twenty digits cannot hold.
#[verifier::external_body]
fn natural_cmp(a: &str, b: &str) -> (r: Ordering)
    requires
        comparable_name(a@),
        comparable_name(b@),
    ensures
        r == natural_order(a@, b@),
{
    lexical_sort::natural_lexical_only_alnum_cmp(a, b)
}

/// Whether `s` is ASCII and has fewer than twenty digits.
fn is_comparable(s: &str) -> (r: bool)
    ensures
        r == comparable_name(s@),
{
    let n = s.unicode_len();
    let mut count: usize = 0;
    let mut k: usize = 0;
    while k < n
        invariant
            n == s@.len(),
            k <= n,
            count == digit_count(s@.take(k as int)),
            count <= k,
            forall|j: int| 0 <= j < k ==> (#[trigger] s@[j]) <= '\x7f',
        decreases n - k,
    {
        assert(s@.take(k + 1).drop_last() =~= s@.take(k as int));
        let c = s.get_char(k);
        if c > '\x7f' {
            return false;
        }
        if '0' <= c && c <= '9' {
            count += 1;
        }
        k += 1;
    }
    assert(s@.take(n as int) =~= s@);
    count < 20
}

/// `mods[b]` has to be loaded before `mods[a]`: `mods[a]` declares a required,
/// optional or hidden optional relation on the name of `mods[b]`.
#[verifier::opaque]
pub open spec fn must_precede(mods: Seq<Mod>, b: int, a: int) -> bool {
    declares_ordering_on(mods[a], mods[b].name@)
}

/// `c` is not yet in `prefix` and every mod that must precede it is.
pub open spec fn ready_after(mods: Seq<Mod>, prefix: Seq<usize>, c: int) -> bool {
    &&& 0 <= c < mods.len()
    &&& !prefix.contains(c as usize)
    &&& forall|b: int|
        0 <= b < mods.len() && #[trigger] must_precede(mods, b, c) ==> prefix.contains(b as usize)
}

/// `c` is ready after `prefix` and no ready mod's name precedes its name.
pub open spec fn preferred_after(mods: Seq<Mod>, prefix: Seq<usize>, c: int) -> bool {
    &&& ready_after(mods, prefix, c)
    &&& forall|d: int|
        #[trigger] ready_after(mods, prefix, d) ==> !name_precedes(mods[d].name@, mods[c].name@)
}

/// `order` holds every index of `mods` exactly once, and each mod comes after every
/// mod that must precede it.
pub open spec fn is_load_order(mods: Seq<Mod>, order: Seq<usize>) -> bool {
    &&& forall|i: int| 0 <= i < order.len() ==> (#[trigger] order[i]) < mods.len()
    &&& forall|i: int, j: int| 0 <= i < j < order.len() ==> order[i] != order[j]
    &&& forall|x: usize| x < mods.len() ==> #[trigger] order.contains(x)
    &&& forall|i: int, j: int|
        0 <= i < order.len() && 0 <= j < order.len() && must_precede(
            mods,
            #[trigger] order[i] as int,
            #[trigger] order[j] as int,
        ) ==> i < j
}

/// Each step of `order` took a ready mod, chosen by the tie-break.
pub open spec fn follows_tie_break(mods: Seq<Mod>, order: Seq<usize>) -> bool {
    forall|i: int|
        0 <= i < order.len() ==> {
            &&& ready_after(mods, order.take(i), #[trigger] order[i] as int)
            &&& chosen_after(mods, order.take(i), order[i] as int)
        }
}

/// `c` is the mod taken after `prefix`: the lowest-indexed preferred mod, or the
/// lowest-indexed ready mod where none is preferred.
pub open spec fn chosen_after(mods: Seq<Mod>, prefix: Seq<usize>, c: int) -> bool {
    if exists|d: int| preferred_after(mods, prefix, d) {
        &&& preferred_after(mods, prefix, c)
        &&& forall|d: int| 0 <= d < c ==> !#[trigger] preferred_after(mods, prefix, d)
    } else {
        &&& ready_after(mods, prefix, c)
        &&& forall|d: int| 0 <= d < c ==> !#[trigger] ready_after(mods, prefix, d)
    }
}

/// A nonempty set of mods each of which must come after another member of the set.
pub open spec fn is_stuck_set(mods: Seq<Mod>, s: Set<int>) -> bool {
    &&& exists|x: int| s.contains(x)
    &&& forall|x: int|
        #[trigger] s.contains(x) ==> 0 <= x < mods.len() && exists|y: int|
            s.contains(y) && must_precede(mods, y, x)
}

/// Each step of `p` moves, within `mods`, to a mod that must precede the one before.
pub open spec fn is_backward_walk(mods: Seq<Mod>, p: Seq<int>) -> bool {
    &&& forall|k: int| 0 <= k < p.len() ==> 0 <= #[trigger] p[k] < mods.len()
    &&& forall|k: int| 0 <= k < p.len() - 1 ==> #[trigger] must_precede(mods, p[k + 1], p[k])
}

/// `mods[x]` lies on a cycle of the precedence relations.
pub open spec fn on_cycle(mods: Seq<Mod>, x: int) -> bool {
    exists|p: Seq<int>| p.len() >= 2 && p[0] == x && p.last() == x && #[trigger] is_backward_walk(mods, p)
}

/// The precedence relations among `mods` contain a cycle.
pub open spec fn has_cycle(mods: Seq<Mod>) -> bool {
    exists|s: Set<int>| is_stuck_set(mods, s)
}

spec fn count_unplaced(p: Seq<bool>) -> nat
    decreases p.len(),
{
    if p.len() == 0 {
        0
    } else {
        count_unplaced(p.drop_last()) + if p.last() {
            0nat
        } else {
            1nat
        }
    }
}

proof fn lemma_count_unplaced_set(p: Seq<bool>, i: int)
    requires
        0 <= i < p.len(),
        !p[i],
    ensures
        count_unplaced(p.update(i, true)) + 1 == count_unplaced(p),
    decreases p.len(),
{
    let q = p.update(i, true);
    if i == p.len() - 1 {
        assert(q.drop_last() =~= p.drop_last());
    } else {
        lemma_count_unplaced_set(p.drop_last(), i);
        assert(q.drop_last() =~= p.drop_last().update(i, true));
    }
}


/// `pred[a][b]` records whether `mods[b]` must precede `mods[a]`.
fn precedence_matrix(mods: &Vec<Mod>) -> (pred: Vec<Vec<bool>>)
    ensures
        pred@.len() == mods@.len(),
        forall|a: int| 0 <= a < mods@.len() ==> (#[trigger] pred@[a])@.len() == mods@.len(),
        forall|a: int, b: int|
            0 <= a < mods@.len() && 0 <= b < mods@.len() ==> pred@[a]@[b] == must_precede(
                mods@,
                b,
                a,
            ),
{
    let n = mods.len();
    let mut pred: Vec<Vec<bool>> = Vec::new();
    let mut a: usize = 0;
    while a < n
        invariant
            n == mods@.len(),
            a <= n,
            pred@.len() == a,
            forall|x: int| 0 <= x < a ==> (#[trigger] pred@[x])@.len() == n,
            forall|x: int, b: int|
                0 <= x < a && 0 <= b < n ==> pred@[x]@[b] == must_precede(mods@, b, x),
        decreases n - a,
    {
        let mut row: Vec<bool> = Vec::new();
        let mut b: usize = 0;
        while b < n
            invariant
                n == mods@.len(),
                a < n,
                b <= n,
                row@.len() == b,
                forall|y: int| 0 <= y < b ==> row@[y] == must_precede(mods@, y, a as int),
            decreases n - b,
        {
            proof {
                reveal(must_precede);
            }
            row.push(mods[a].has_dependency(&mods[b].name));
            b += 1;
        }
        pred.push(row);
        a += 1;
    }
    pred
}

/// Which mods are ready once the mods marked in `placed` (those of `order`) are loaded.
fn ready_flags(mods: &Vec<Mod>, pred: &Vec<Vec<bool>>, placed: &Vec<bool>, order: Ghost<Seq<usize>>) -> (ready: Vec<bool>)
    requires
        pred@.len() == mods@.len(),
        placed@.len() == mods@.len(),
        forall|a: int| 0 <= a < mods@.len() ==> (#[trigger] pred@[a])@.len() == mods@.len(),
        forall|a: int, b: int|
            0 <= a < mods@.len() && 0 <= b < mods@.len() ==> pred@[a]@[b] == must_precede(
                mods@,
                b,
                a,
            ),
        forall|x: int| 0 <= x < mods@.len() ==> placed@[x] == order@.contains(x as usize),
    ensures
        ready@.len() == mods@.len(),
        forall|x: int| 0 <= x < mods@.len() ==> ready@[x] == ready_after(mods@, order@, x),
{
    let n = mods.len();
    let mut ready: Vec<bool> = Vec::new();
    let mut x: usize = 0;
    while x < n
        invariant
            n == mods@.len(),
            pred@.len() == n,
            placed@.len() == n,
            forall|a: int| 0 <= a < n ==> (#[trigger] pred@[a])@.len() == n,
            forall|a: int, b: int|
                0 <= a < n && 0 <= b < n ==> pred@[a]@[b] == must_precede(mods@, b, a),
            forall|y: int| 0 <= y < n ==> placed@[y] == order@.contains(y as usize),
            x <= n,
            ready@.len() == x,
            forall|y: int| 0 <= y < x ==> ready@[y] == ready_after(mods@, order@, y),
        decreases n - x,
    {
        let mut ok = !placed[x];
        let mut b: usize = 0;
        while b < n
            invariant
                n == mods@.len(),
                pred@.len() == n,
                placed@.len() == n,
                x < n,
                pred@[x as int]@.len() == n,
                forall|c: int| 0 <= c < n ==> pred@[x as int]@[c] == must_precede(mods@, c, x as int),
                forall|y: int| 0 <= y < n ==> placed@[y] == order@.contains(y as usize),
                b <= n,
                ok == (!order@.contains(x) && forall|c: int|
                    0 <= c < b && #[trigger] must_precede(mods@, c, x as int) ==> order@.contains(c as usize)),
            decreases n - b,
        {
            assert(pred@[x as int]@[b as int] == must_precede(mods@, b as int, x as int));
            assert(placed@[b as int] == order@.contains(b));
            if pred[x][b] && !placed[b] {
                ok = false;
            }
            b += 1;
        }
        ready.push(ok);
        x += 1;
    }
    ready
}

/// Whether no ready mod's name sorts strictly before that of `mods[c]`.
fn is_preferred(mods: &Vec<Mod>, ready: &Vec<bool>, c: usize) -> (r: bool)
    requires
        ready@.len() == mods@.len(),
        c < mods@.len(),
    ensures
        r == forall|d: int|
            0 <= d < mods@.len() && #[trigger] ready@[d] ==> !name_precedes(mods@[d].name@, mods@[c as int].name@),
{
    if !is_comparable(mods[c].name.as_str()) {
        return true;
    }
    let mut d: usize = 0;
    while d < mods.len()
        invariant
            ready@.len() == mods@.len(),
            c < mods@.len(),
            d <= mods@.len(),
            comparable_name(mods@[c as int].name@),
            forall|e: int|
                0 <= e < d && #[trigger] ready@[e] ==> !name_precedes(mods@[e].name@, mods@[c as int].name@),
        decreases mods@.len() - d,
    {
        if ready[d] && is_comparable(mods[d].name.as_str()) && matches!(
            natural_cmp(mods[d].name.as_str(), mods[c].name.as_str()),
            Ordering::Less,
        ) {
            return false;
        }
        d += 1;
    }
    true
}


proof fn lemma_tie_break_respects_precedence(mods: Seq<Mod>, order: Seq<usize>)
    requires
        follows_tie_break(mods, order),
        forall|i: int| 0 <= i < order.len() ==> (#[trigger] order[i]) < mods.len(),
        forall|i: int, j: int| 0 <= i < j < order.len() ==> order[i] != order[j],
    ensures
        forall|i: int, j: int|
            0 <= i < order.len() && 0 <= j < order.len() && must_precede(
                mods,
                #[trigger] order[i] as int,
                #[trigger] order[j] as int,
            ) ==> i < j,
{
    assert forall|i: int, j: int|
        0 <= i < order.len() && 0 <= j < order.len() && must_precede(
            mods,
            #[trigger] order[i] as int,
            #[trigger] order[j] as int,
        ) implies i < j by {
        assert(ready_after(mods, order.take(j), order[j] as int));
        assert(order.take(j).contains(order[i]));
        let m = choose|m: int| 0 <= m < j && order.take(j)[m] == order[i];
        assert(order[m] == order[i]);
    }
}

proof fn lemma_prefix_avoids_stuck(mods: Seq<Mod>, order: Seq<usize>, s: Set<int>, k: int)
    requires
        mods.len() <= usize::MAX,
        is_load_order(mods, order),
        is_stuck_set(mods, s),
        0 <= k <= order.len(),
    ensures
        forall|i: int| 0 <= i < k ==> !s.contains(#[trigger] order[i] as int),
    decreases k,
{
    if k > 0 {
        lemma_prefix_avoids_stuck(mods, order, s, k - 1);
        let x = order[k - 1] as int;
        if s.contains(x) {
            let y = choose|y: int| s.contains(y) && must_precede(mods, y, x);
            assert(0 <= y < mods.len());
            assert(order.contains(y as usize));
            let m = choose|m: int| 0 <= m < order.len() && order[m] == y as usize;
            assert(order[m] as int == y);
            assert(must_precede(mods, order[m] as int, order[k - 1] as int));
            assert(!s.contains(order[m] as int));
        }
    }
}

proof fn lemma_same_choice(m1: Seq<Mod>, m2: Seq<Mod>, p: Seq<usize>)
    requires
        m1.len() == m2.len(),
        forall|i: int| 0 <= i < m1.len() ==> (#[trigger] m1[i]).name@ == m2[i].name@,
        forall|a: int, b: int|
            0 <= a < m1.len() && 0 <= b < m1.len() ==> #[trigger] must_precede(m1, a, b)
                == must_precede(m2, a, b),
    ensures
        forall|c: int| #[trigger] ready_after(m1, p, c) == ready_after(m2, p, c),
        forall|c: int| #[trigger] preferred_after(m1, p, c) == preferred_after(m2, p, c),
        forall|c: int| #[trigger] chosen_after(m1, p, c) == chosen_after(m2, p, c),
{
    assert forall|c: int| #[trigger] ready_after(m1, p, c) == ready_after(m2, p, c) by {
        if 0 <= c < m1.len() {
            assert forall|b: int| 0 <= b < m1.len() implies must_precede(m1, b, c) == must_precede(m2, b, c) by {}
        }
    }
    assert forall|c: int| #[trigger] preferred_after(m1, p, c) == preferred_after(m2, p, c) by {
        if ready_after(m1, p, c) {
            assert(ready_after(m2, p, c));
            assert(m1[c].name@ == m2[c].name@);
            if preferred_after(m1, p, c) {
                assert forall|d: int| #[trigger] ready_after(m2, p, d) implies !name_precedes(
                    m2[d].name@,
                    m2[c].name@,
                ) by {
                    assert(ready_after(m1, p, d));
                    assert(m1[d].name@ == m2[d].name@);
                }
            }
            if preferred_after(m2, p, c) {
                assert forall|d: int| #[trigger] ready_after(m1, p, d) implies !name_precedes(
                    m1[d].name@,
                    m1[c].name@,
                ) by {
                    assert(ready_after(m2, p, d));
                    assert(m1[d].name@ == m2[d].name@);
                }
            }
        }
    }
    let e1 = exists|d: int| preferred_after(m1, p, d);
    let e2 = exists|d: int| preferred_after(m2, p, d);
    if e1 {
        let d = choose|d: int| preferred_after(m1, p, d);
        assert(preferred_after(m2, p, d));
    }
    if e2 {
        let d = choose|d: int| preferred_after(m2, p, d);
        assert(preferred_after(m1, p, d));
    }
    assert(e1 == e2);
    assert forall|c: int| #[trigger] chosen_after(m1, p, c) == chosen_after(m2, p, c) by {
        if e1 {
            assert forall|d: int| 0 <= d < c implies preferred_after(m1, p, d) == preferred_after(m2, p, d) by {}
        } else {
            assert forall|d: int| 0 <= d < c implies ready_after(m1, p, d) == ready_after(m2, p, d) by {}
        }
    }
}

proof fn lemma_choice_unique(m: Seq<Mod>, p: Seq<usize>, c1: int, c2: int)
    requires
        chosen_after(m, p, c1),
        chosen_after(m, p, c2),
    ensures
        c1 == c2,
{
    if c1 < c2 {
        assert(!preferred_after(m, p, c1) || !(exists|d: int| preferred_after(m, p, d)));
        assert(!ready_after(m, p, c1) || (exists|d: int| preferred_after(m, p, d)));
    }
    if c2 < c1 {
        assert(!preferred_after(m, p, c2) || !(exists|d: int| preferred_after(m, p, d)));
        assert(!ready_after(m, p, c2) || (exists|d: int| preferred_after(m, p, d)));
    }
}

/// The load order depends on the mods' names and precedence relations alone: two
/// lists with the same names and the same relations get the same order, so
/// relations that make no precedence (incompatible or order-independent ones, or
/// ones naming a mod outside the list) do not change it.
pub proof fn lemma_order_determined_by_edges(
    m1: Seq<Mod>,
    m2: Seq<Mod>,
    o1: Seq<usize>,
    o2: Seq<usize>,
)
    requires
        m1.len() == m2.len(),
        m1.len() <= usize::MAX,
        forall|i: int| 0 <= i < m1.len() ==> (#[trigger] m1[i]).name@ == m2[i].name@,
        forall|a: int, b: int|
            0 <= a < m1.len() && 0 <= b < m1.len() ==> #[trigger] must_precede(m1, a, b)
                == must_precede(m2, a, b),
        is_load_order(m1, o1),
        follows_tie_break(m1, o1),
        is_load_order(m2, o2),
        follows_tie_break(m2, o2),
    ensures
        o1 == o2,
{
    let len = if o1.len() < o2.len() {
        o1.len() as int
    } else {
        o2.len() as int
    };
    lemma_same_prefix(m1, m2, o1, o2, len);
    if o1.len() < o2.len() {
        let x = o2[len];
        assert(o1.contains(x));
        let i = choose|i: int| 0 <= i < o1.len() && o1[i] == x;
        assert(o1.take(len)[i] == o2.take(len)[i]);
    }
    if o2.len() < o1.len() {
        let x = o1[len];
        assert(o2.contains(x));
        let i = choose|i: int| 0 <= i < o2.len() && o2[i] == x;
        assert(o1.take(len)[i] == o2.take(len)[i]);
    }
    assert(o1 =~= o1.take(len));
    assert(o2 =~= o2.take(len));
}

proof fn lemma_same_prefix(m1: Seq<Mod>, m2: Seq<Mod>, o1: Seq<usize>, o2: Seq<usize>, k: int)
    requires
        m1.len() == m2.len(),
        forall|i: int| 0 <= i < m1.len() ==> (#[trigger] m1[i]).name@ == m2[i].name@,
        forall|a: int, b: int|
            0 <= a < m1.len() && 0 <= b < m1.len() ==> #[trigger] must_precede(m1, a, b)
                == must_precede(m2, a, b),
        follows_tie_break(m1, o1),
        follows_tie_break(m2, o2),
        0 <= k <= o1.len(),
        k <= o2.len(),
    ensures
        o1.take(k) == o2.take(k),
    decreases k,
{
    if k > 0 {
        lemma_same_prefix(m1, m2, o1, o2, k - 1);
        let p = o1.take(k - 1);
        assert(o2.take(k - 1) == p);
        assert(chosen_after(m1, o1.take(k - 1), o1[k - 1] as int));
        assert(chosen_after(m2, o2.take(k - 1), o2[k - 1] as int));
        lemma_same_choice(m1, m2, p);
        assert(chosen_after(m1, p, o2[k - 1] as int));
        lemma_choice_unique(m1, p, o1[k - 1] as int, o2[k - 1] as int);
        assert(o1.take(k) =~= p.push(o1[k - 1]));
        assert(o2.take(k) =~= p.push(o2[k - 1]));
    }
}

/// A mod list that admits a load order has no cycle among its precedence relations;
/// so whenever ordering succeeds no cycle exists, and on a cycle it must fail.
pub proof fn lemma_load_order_excludes_cycle(mods: Seq<Mod>, order: Seq<usize>)
    requires
        mods.len() <= usize::MAX,
        is_load_order(mods, order),
    ensures
        !has_cycle(mods),
{
    if has_cycle(mods) {
        let s = choose|s: Set<int>| is_stuck_set(mods, s);
        lemma_prefix_avoids_stuck(mods, order, s, order.len() as int);
        let x = choose|x: int| s.contains(x);
        assert(0 <= x < mods.len());
        assert(order.contains(x as usize));
        let m = choose|m: int| 0 <= m < order.len() && order[m] == x as usize;
        assert(order[m] as int == x);
        assert(!s.contains(order[m] as int));
    }
}


/// The mods of `mods` that are not in `order`: a stuck set when none of them is ready.
spec fn unplaced_set(mods: Seq<Mod>, order: Seq<usize>) -> Set<int> {
    Set::new(|x: int| 0 <= x < mods.len() && !order.contains(x as usize))
}

/// Computes the load order of `mods` as indices into it: Kahn's algorithm that, at
/// each step, takes the first ready mod whose name no other ready name precedes in
/// natural, case-folding order (or the first ready mod if there is no such one).
/// Fails exactly when the precedence relations contain a cycle, naming a mod on it.
pub fn resolve_order(mods: &Vec<Mod>) -> (r: Result<Vec<usize>, ModDataErr>)
    ensures
        r is Ok <==> !has_cycle(mods@),
        match r {
            Ok(order) => is_load_order(mods@, order@) && follows_tie_break(mods@, order@),
            Err(e) => match e {
                ModDataErr::CyclicDependency(name) => exists|x: int|
                    on_cycle(mods@, x) && #[trigger] mods@[x].name@ == name@,
                _ => false,
            },
        },
{
    let n = mods.len();
    let pred = precedence_matrix(mods);
    let mut placed: Vec<bool> = Vec::new();
    let mut i: usize = 0;
    while i < n
        invariant
            i <= n,
            placed@.len() == i,
            forall|y: int| 0 <= y < i ==> !placed@[y],
        decreases n - i,
    {
        placed.push(false);
        i += 1;
    }
    let mut order: Vec<usize> = Vec::new();
    assert forall|y: int| 0 <= y < n implies placed@[y] == order@.contains(y as usize) by {}
    loop
        invariant
            n == mods@.len(),
            pred@.len() == n,
            forall|a: int| 0 <= a < n ==> (#[trigger] pred@[a])@.len() == n,
            forall|a: int, b: int|
                0 <= a < n && 0 <= b < n ==> pred@[a]@[b] == must_precede(mods@, b, a),
            placed@.len() == n,
            forall|y: int| 0 <= y < n ==> placed@[y] == order@.contains(y as usize),
            forall|k: int| 0 <= k < order@.len() ==> (#[trigger] order@[k]) < n,
            forall|k: int, l: int| 0 <= k < l < order@.len() ==> order@[k] != order@[l],
            follows_tie_break(mods@, order@),
        decreases count_unplaced(placed@),
    {
        let ready = ready_flags(mods, &pred, &placed, Ghost(order@));
        match first_unplaced(&placed) {
            None => {
                proof {
                    assert forall|y: usize| y < n implies #[trigger] order@.contains(y) by {
                        assert(placed@[y as int]);
                    }
                    lemma_tie_break_respects_precedence(mods@, order@);
                    lemma_load_order_excludes_cycle(mods@, order@);
                }
                return Ok(order);
            },
            Some(u) => {
                match pick_ready(mods, &ready) {
                    None => {
                        proof {
                            assert forall|y: int| 0 <= y < n implies !ready_after(mods@, order@, y) by {
                                assert(!ready@[y]);
                            }
                            lemma_unplaced_stuck(mods@, order@, u as int);
                        }
                        let x = cycle_member(mods, &pred, &placed, Ghost(order@), u);
                        let name = mods[x].name.clone();
                        assert(on_cycle(mods@, x as int) && mods@[x as int].name@ == name@);
                        return Err(ModDataErr::CyclicDependency(name));
                    },
                    Some(pick) => {
                        proof {
                            lemma_preferred_matches(mods@, order@, ready@);
                            if exists|d: int| preferred_after(mods@, order@, d) {
                                let c = choose|d: int| preferred_after(mods@, order@, d);
                                assert(preferred_in(mods@, ready@, c));
                                assert(preferred_after(mods@, order@, pick as int));
                                assert forall|d: int| 0 <= d < pick implies !#[trigger] preferred_after(
                                    mods@,
                                    order@,
                                    d,
                                ) by {
                                    assert(!preferred_in(mods@, ready@, d));
                                }
                            } else {
                                assert forall|c: int| 0 <= c < n implies !preferred_in(mods@, ready@, c) by {
                                    assert(!preferred_after(mods@, order@, c));
                                }
                                assert forall|d: int| 0 <= d < pick implies !#[trigger] ready_after(
                                    mods@,
                                    order@,
                                    d,
                                ) by {
                                    assert(!ready@[d]);
                                }
                            }
                            assert(chosen_after(mods@, order@, pick as int));
                            lemma_push_keeps_tie_break(mods@, order@, pick as int);
                            lemma_count_unplaced_set(placed@, pick as int);
                        }
                        let ghost old_order = order@;
                        placed.set(pick, true);
                        order.push(pick);
                        proof {
                            assert forall|y: int| 0 <= y < n implies placed@[y] == order@.contains(y as usize) by {
                                if y != pick as int {
                                    assert(order@.contains(y as usize) ==> old_order.contains(y as usize)) by {
                                        if order@.contains(y as usize) {
                                            let k = choose|k: int| 0 <= k < order@.len() && order@[k] == y as usize;
                                            assert(k < old_order.len());
                                            assert(old_order[k] == y as usize);
                                        }
                                    }
                                    assert(old_order.contains(y as usize) ==> order@.contains(y as usize)) by {
                                        if old_order.contains(y as usize) {
                                            let k = choose|k: int| 0 <= k < old_order.len() && old_order[k] == y as usize;
                                            assert(order@[k] == y as usize);
                                        }
                                    }
                                } else {
                                    assert(order@[old_order.len() as int] == pick);
                                }
                            }
                        }
                    },
                }
            },
        }
    }
}

/// A mod on a cycle, found by walking from the unplaced mod `u` to unplaced mods
/// that must precede it until one repeats.
fn cycle_member(
    mods: &Vec<Mod>,
    pred: &Vec<Vec<bool>>,
    placed: &Vec<bool>,
    order: Ghost<Seq<usize>>,
    u: usize,
) -> (x: usize)
    requires
        pred@.len() == mods@.len(),
        placed@.len() == mods@.len(),
        forall|a: int| 0 <= a < mods@.len() ==> (#[trigger] pred@[a])@.len() == mods@.len(),
        forall|a: int, b: int|
            0 <= a < mods@.len() && 0 <= b < mods@.len() ==> pred@[a]@[b] == must_precede(
                mods@,
                b,
                a,
            ),
        forall|y: int| 0 <= y < mods@.len() ==> placed@[y] == order@.contains(y as usize),
        forall|y: int| 0 <= y < mods@.len() ==> !ready_after(mods@, order@, y),
        u < mods@.len(),
        !placed@[u as int],
    ensures
        x < mods@.len(),
        on_cycle(mods@, x as int),
{
    let n = mods.len();
    let mut visited: Vec<bool> = Vec::new();
    let mut i: usize = 0;
    while i < n
        invariant
            i <= n,
            visited@.len() == i,
            forall|y: int| 0 <= y < i ==> !visited@[y],
        decreases n - i,
    {
        visited.push(false);
        i += 1;
    }
    let ghost mut walk: Seq<int> = Seq::empty();
    let mut cur = u;
    assert(walk.push(cur as int) =~= seq![cur as int]);
    loop
        invariant
            n == mods@.len(),
            pred@.len() == n,
            placed@.len() == n,
            forall|a: int| 0 <= a < n ==> (#[trigger] pred@[a])@.len() == n,
            forall|a: int, b: int|
                0 <= a < n && 0 <= b < n ==> pred@[a]@[b] == must_precede(mods@, b, a),
            forall|y: int| 0 <= y < n ==> placed@[y] == order@.contains(y as usize),
            forall|y: int| 0 <= y < n ==> !ready_after(mods@, order@, y),
            cur < n,
            !placed@[cur as int],
            visited@.len() == n,
            forall|y: int| 0 <= y < n ==> visited@[y] == walk.contains(y),
            is_backward_walk(mods@, walk.push(cur as int)),
        decreases count_unplaced(visited@),
    {
        let ghost w = walk.push(cur as int);
        if visited[cur] {
            proof {
                assert(visited@[cur as int]);
                assert(walk.contains(cur as int));
                let m = choose|m: int| 0 <= m < walk.len() && walk[m] == cur as int;
                let q = w.subrange(m, w.len() as int);
                assert(w[m] == walk[m]);
                assert(q[0] == cur as int);
                assert(q.last() == cur as int);
                assert forall|k: int| 0 <= k < q.len() - 1 implies #[trigger] must_precede(
                    mods@,
                    q[k + 1],
                    q[k],
                ) by {
                    assert(q[k] == w[m + k]);
                    assert(q[k + 1] == w[m + k + 1]);
                }
                assert(is_backward_walk(mods@, q));
            }
            return cur;
        }
        proof {
            lemma_count_unplaced_set(visited@, cur as int);
            assert(!ready_after(mods@, order@, cur as int));
            assert(!order@.contains(cur));
        }
        let ghost witness = choose|b: int|
            0 <= b < n && #[trigger] must_precede(mods@, b, cur as int) && !order@.contains(b as usize);
        let mut b: usize = 0;
        while b < n && !(pred[cur][b] && !placed[b])
            invariant
                n == mods@.len(),
                pred@.len() == n,
                placed@.len() == n,
                cur < n,
                pred@[cur as int]@.len() == n,
                forall|c: int| 0 <= c < n ==> pred@[cur as int]@[c] == must_precede(mods@, c, cur as int),
                forall|y: int| 0 <= y < n ==> placed@[y] == order@.contains(y as usize),
                0 <= witness < n,
                must_precede(mods@, witness, cur as int),
                !order@.contains(witness as usize),
                b <= n,
                forall|c: int| 0 <= c < b ==> !(pred@[cur as int]@[c] && !placed@[c]),
            decreases n - b,
        {
            b += 1;
        }
        if b >= n {
            assert(pred@[cur as int]@[witness] && !placed@[witness]);
        }
        let ghost old_walk = walk;
        let ghost old_visited = visited@;
        visited.set(cur, true);
        proof {
            walk = w;
            assert forall|y: int| 0 <= y < n implies visited@[y] == walk.contains(y) by {
                assert(walk == old_walk.push(cur as int));
                if y == cur as int {
                    assert(walk[old_walk.len() as int] == y);
                } else {
                    assert(visited@[y] == old_visited[y]);
                    if old_walk.contains(y) {
                        let k = choose|k: int| 0 <= k < old_walk.len() && old_walk[k] == y;
                        assert(walk[k] == y);
                    }
                    if walk.contains(y) {
                        let k = choose|k: int| 0 <= k < walk.len() && walk[k] == y;
                        assert(k < old_walk.len());
                        assert(old_walk[k] == y);
                    }
                }
            }
            let w2 = walk.push(b as int);
            assert forall|k: int| 0 <= k < w2.len() - 1 implies #[trigger] must_precede(
                mods@,
                w2[k + 1],
                w2[k],
            ) by {
                if k < w2.len() - 2 {
                    assert(w2[k] == w[k]);
                    assert(w2[k + 1] == w[k + 1]);
                }
            }
        }
        cur = b;
    }
}

/// The first position of `placed` that is still false.
fn first_unplaced(placed: &Vec<bool>) -> (r: Option<usize>)
    ensures
        match r {
            None => forall|y: int| 0 <= y < placed@.len() ==> placed@[y],
            Some(u) => u < placed@.len() && !placed@[u as int],
        },
{
    let mut x: usize = 0;
    while x < placed.len()
        invariant
            x <= placed@.len(),
            forall|y: int| 0 <= y < x ==> placed@[y],
        decreases placed@.len() - x,
    {
        if !placed[x] {
            return Some(x);
        }
        x += 1;
    }
    None
}

/// `ready[c]` holds and no ready name sorts strictly before that of `mods[c]`.
spec fn preferred_in(mods: Seq<Mod>, ready: Seq<bool>, c: int) -> bool {
    &&& ready[c]
    &&& forall|d: int|
        0 <= d < mods.len() && #[trigger] ready[d] ==> !name_precedes(mods[d].name@, mods[c].name@)
}

/// The first preferred ready mod, else the first ready one.
fn pick_ready(mods: &Vec<Mod>, ready: &Vec<bool>) -> (r: Option<usize>)
    requires
        ready@.len() == mods@.len(),
    ensures
        match r {
            None => forall|y: int| 0 <= y < mods@.len() ==> !ready@[y],
            Some(p) => p < mods@.len() && ready@[p as int] && if exists|c: int|
                0 <= c < mods@.len() && preferred_in(mods@, ready@, c) {
                preferred_in(mods@, ready@, p as int) && forall|d: int|
                    0 <= d < p ==> !preferred_in(mods@, ready@, d)
            } else {
                forall|d: int| 0 <= d < p ==> !ready@[d]
            },
        },
{
    let n = mods.len();
    let mut first_ready: Option<usize> = None;
    let mut x: usize = 0;
    while x < n
        invariant
            n == mods@.len(),
            ready@.len() == n,
            x <= n,
            forall|y: int| 0 <= y < x ==> !preferred_in(mods@, ready@, y),
            match first_ready {
                None => forall|y: int| 0 <= y < x ==> !ready@[y],
                Some(u) => u < n && ready@[u as int] && forall|y: int| 0 <= y < u ==> !ready@[y],
            },
        decreases n - x,
    {
        if ready[x] {
            if is_preferred(mods, ready, x) {
                assert(preferred_in(mods@, ready@, x as int));
                return Some(x);
            }
            if first_ready.is_none() {
                first_ready = Some(x);
            }
        }
        x += 1;
    }
    first_ready
}

proof fn lemma_unplaced_stuck(mods: Seq<Mod>, order: Seq<usize>, u: int)
    requires
        mods.len() <= usize::MAX,
        0 <= u < mods.len(),
        !order.contains(u as usize),
        forall|y: int| 0 <= y < mods.len() ==> !ready_after(mods, order, y),
    ensures
        is_stuck_set(mods, unplaced_set(mods, order)),
        unplaced_set(mods, order).contains(u),
{
    let s = unplaced_set(mods, order);
    assert(s.contains(u));
    assert forall|y: int| #[trigger] s.contains(y) implies 0 <= y < mods.len() && exists|b: int|
        s.contains(b) && must_precede(mods, b, y) by {
        assert(!ready_after(mods, order, y));
        let b = choose|b: int|
            0 <= b < mods.len() && #[trigger] must_precede(mods, b, y) && !order.contains(b as usize);
        assert(s.contains(b));
    }
}

/// The ready flags computed after `order` give the same preferred mods as the
/// definitions over `order`.
proof fn lemma_preferred_matches(mods: Seq<Mod>, order: Seq<usize>, ready: Seq<bool>)
    requires
        ready.len() == mods.len(),
        forall|x: int| 0 <= x < mods.len() ==> ready[x] == ready_after(mods, order, x),
    ensures
        forall|d: int| #[trigger] preferred_after(mods, order, d) ==> 0 <= d < mods.len(),
        forall|d: int|
            0 <= d < mods.len() ==> (preferred_in(mods, ready, d) == #[trigger] preferred_after(
                mods,
                order,
                d,
            )),
{
    assert forall|d: int|
        0 <= d < mods.len() implies (preferred_in(mods, ready, d) == #[trigger] preferred_after(
            mods,
            order,
            d,
        )) by {
        if preferred_in(mods, ready, d) {
            assert forall|e: int| #[trigger] ready_after(mods, order, e) implies !name_precedes(
                mods[e].name@,
                mods[d].name@,
            ) by {
                assert(ready[e]);
            }
        }
        if preferred_after(mods, order, d) {
            assert forall|e: int| 0 <= e < mods.len() && #[trigger] ready[e] implies !name_precedes(
                mods[e].name@,
                mods[d].name@,
            ) by {
                assert(ready_after(mods, order, e));
            }
        }
    }
}

proof fn lemma_push_keeps_tie_break(mods: Seq<Mod>, order: Seq<usize>, pick: int)
    requires
        mods.len() <= usize::MAX,
        follows_tie_break(mods, order),
        ready_after(mods, order, pick),
        chosen_after(mods, order, pick),
    ensures
        follows_tie_break(mods, order.push(pick as usize)),
{
    let new_order = order.push(pick as usize);
    assert(new_order.take(order.len() as int) =~= order);
    assert forall|k: int| 0 <= k < order.len() implies new_order.take(k) =~= order.take(k) by {}
    assert forall|i: int| 0 <= i < new_order.len() implies {
        &&& ready_after(mods, new_order.take(i), #[trigger] new_order[i] as int)
        &&& (exists|c: int| preferred_after(mods, new_order.take(i), c)) ==> preferred_after(
            mods,
            new_order.take(i),
            new_order[i] as int,
        )
    } by {
        if i < order.len() {
            assert(new_order.take(i) =~= order.take(i));
            assert(new_order[i] == order[i]);
        } else {
            assert(new_order.take(i) =~= order);
            assert(new_order[i] as int == pick);
        }
    }
}

} // verus!
