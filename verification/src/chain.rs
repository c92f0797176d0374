//! Chains of compression pointers, and why following as many pointers as
//! the buffer has octets is enough.
//!
//! A walk that never ends must come by the same pointer twice, and a walk
//! that comes by a pointer twice never ends. A walk that revisits no pointer
//! follows fewer pointers than the buffer has octets. So the limit on hops
//! in [`name_at`] refuses exactly the chains that no limit would let end.

use vstd::prelude::*;
use vstd::relations::injective_on;
use vstd::set_lib::*;
use crate::error::DnsError;
use crate::name::{is_pointer, name_at, pointer_target, walk_name};

verus! {

/// The offset of the first pointer that the walk from `pos` meets and may
/// follow, having read the labels before it; -1 where the walk ends before
/// it meets one.
pub open spec fn next_pointer(buf: Seq<u8>, pos: int) -> int
    decreases buf.len() - pos,
{
    if pos < 0 || pos >= buf.len() {
        -1
    } else if is_pointer(buf[pos]) {
        if pos + 1 < buf.len() && pointer_target(buf[pos], buf[pos + 1]) < pos {
            pos
        } else {
            -1
        }
    } else if buf[pos] == 0 || pos + 1 + buf[pos] > buf.len() {
        -1
    } else {
        next_pointer(buf, pos + 1 + buf[pos])
    }
}

/// The offset that the pointer at `at` names.
pub open spec fn target_at(buf: Seq<u8>, at: int) -> int {
    pointer_target(buf[at], buf[at + 1])
}

/// The offset of the pointer that the walk from `pos` meets after it has
/// followed `n` pointers; -1 where the walk ends before.
pub open spec fn nth_pointer(buf: Seq<u8>, pos: int, n: nat) -> int
    decreases n,
{
    let p = next_pointer(buf, pos);
    if p < 0 {
        -1
    } else if n == 0 {
        p
    } else {
        nth_pointer(buf, target_at(buf, p), (n - 1) as nat)
    }
}

/// A pointer that a walk meets lies inside the buffer, and a walk that
/// starts at it meets it at once.
proof fn lemma_next_pointer_range(buf: Seq<u8>, pos: int)
    ensures
        next_pointer(buf, pos) >= 0 ==> 0 <= next_pointer(buf, pos) < buf.len() && next_pointer(
            buf,
            next_pointer(buf, pos),
        ) == next_pointer(buf, pos),
    decreases buf.len() - pos,
{
    if pos < 0 || pos >= buf.len() {
    } else if is_pointer(buf[pos]) {
    } else if buf[pos] == 0 || pos + 1 + buf[pos] > buf.len() {
    } else {
        lemma_next_pointer_range(buf, pos + 1 + buf[pos]);
    }
}

/// The pointer met after `n` hops lies inside the buffer.
proof fn lemma_nth_pointer_range(buf: Seq<u8>, pos: int, n: nat)
    ensures
        nth_pointer(buf, pos, n) >= 0 ==> 0 <= nth_pointer(buf, pos, n) < buf.len(),
    decreases n,
{
    lemma_next_pointer_range(buf, pos);
    if next_pointer(buf, pos) >= 0 && n > 0 {
        lemma_nth_pointer_range(buf, target_at(buf, next_pointer(buf, pos)), (n - 1) as nat);
    }
}

/// A walk that meets a pointer after `n` hops met one after each smaller
/// number of hops.
proof fn lemma_nth_pointer_earlier(buf: Seq<u8>, pos: int, n: nat, m: nat)
    requires
        nth_pointer(buf, pos, n) >= 0,
        m <= n,
    ensures
        nth_pointer(buf, pos, m) >= 0,
    decreases m,
{
    if m > 0 {
        lemma_nth_pointer_earlier(
            buf,
            target_at(buf, next_pointer(buf, pos)),
            (n - 1) as nat,
            (m - 1) as nat,
        );
    }
}

/// From the pointer met after `n` hops the walk goes on as a walk that
/// starts at that pointer's target.
proof fn lemma_nth_pointer_goes_on(buf: Seq<u8>, pos: int, n: nat, m: nat)
    requires
        nth_pointer(buf, pos, n) >= 0,
    ensures
        nth_pointer(buf, pos, n + 1 + m) == nth_pointer(
            buf,
            target_at(buf, nth_pointer(buf, pos, n)),
            m,
        ),
    decreases n,
{
    if n > 0 {
        lemma_nth_pointer_goes_on(buf, target_at(buf, next_pointer(buf, pos)), (n - 1) as nat, m);
    }
}

/// Of `n + 1` values below `n`, two are equal.
proof fn lemma_two_alike(f: spec_fn(int) -> int, n: int) -> (r: (int, int))
    requires
        n >= 0,
        forall|k: int| 0 <= k <= n ==> 0 <= #[trigger] f(k) < n,
    ensures
        0 <= r.0 < r.1 <= n,
        f(r.0) == f(r.1),
{
    let from = set_int_range(0, n + 1);
    let into = set_int_range(0, n);
    lemma_int_range(0, n + 1);
    lemma_int_range(0, n);
    let image = from.map(f);
    assert(image.subset_of(into)) by {
        assert forall|v: int| image.contains(v) implies into.contains(v) by {
            let k = choose|k: int| from.contains(k) && v == f(k);
            assert(0 <= f(k) < n);
        }
    }
    lemma_len_subset(image, into);
    if injective_on(f, from) {
        lemma_map_size(from, image, f);
        assert(false);
    }
    let (a, b) = choose|a: int, b: int|
        from.contains(a) && from.contains(b) && #[trigger] f(a) == #[trigger] f(b) && a != b;
    if a < b {
        (a, b)
    } else {
        (b, a)
    }
}

/// Once a walk has come by the pointer at `at` and comes by it again after
/// `period` more hops, it meets a pointer after any number of hops.
proof fn lemma_round_and_round(buf: Seq<u8>, at: int, period: nat, m: nat)
    requires
        nth_pointer(buf, target_at(buf, at), period) == at,
        at >= 0,
    ensures
        nth_pointer(buf, target_at(buf, at), m) >= 0,
    decreases m,
{
    let start = target_at(buf, at);
    if m <= period {
        lemma_nth_pointer_earlier(buf, start, period, m);
    } else {
        let rest = (m - period - 1) as nat;
        lemma_nth_pointer_goes_on(buf, start, period, rest);
        assert(period + 1 + rest == m);
        lemma_round_and_round(buf, at, period, rest);
    }
}

/// A walk that meets a pointer after as many hops as the buffer has octets
/// has come by one pointer twice, and so meets a pointer after any number
/// of hops.
proof fn lemma_long_chain_never_ends(buf: Seq<u8>, pos: int, n: nat)
    requires
        nth_pointer(buf, pos, buf.len()) >= 0,
    ensures
        nth_pointer(buf, pos, n) >= 0,
{
    let len = buf.len() as int;
    let f = |k: int| nth_pointer(buf, pos, k as nat);
    assert forall|k: int| 0 <= k <= len implies 0 <= #[trigger] f(k) < len by {
        lemma_nth_pointer_earlier(buf, pos, buf.len(), k as nat);
        lemma_nth_pointer_range(buf, pos, k as nat);
    }
    let (i, j) = lemma_two_alike(f, len);
    let at = nth_pointer(buf, pos, i as nat);
    assert(f(i) == at && f(j) == at);
    let period = (j - i - 1) as nat;
    lemma_nth_pointer_goes_on(buf, pos, i as nat, period);
    assert(i as nat + 1 + period == j as nat);
    if n <= i {
        lemma_nth_pointer_earlier(buf, pos, i as nat, n);
    } else {
        let rest = (n - i - 1) as nat;
        lemma_round_and_round(buf, at, period, rest);
        lemma_nth_pointer_goes_on(buf, pos, i as nat, rest);
        assert(i as nat + 1 + rest == n);
    }
}

/// A walk that meets a pointer after it has used up its hops is refused.
proof fn lemma_out_of_hops(buf: Seq<u8>, pos: int, hops: nat)
    requires
        nth_pointer(buf, pos, hops) >= 0,
    ensures
        walk_name(buf, pos, hops) == Err::<(Seq<Seq<u8>>, int), DnsError>(
            DnsError::MalformedPointer,
        ),
    decreases hops, buf.len() - pos,
{
    if pos < 0 || pos >= buf.len() {
    } else if is_pointer(buf[pos]) {
        if hops > 0 {
            lemma_out_of_hops(buf, pointer_target(buf[pos], buf[pos + 1]), (hops - 1) as nat);
        }
    } else if buf[pos] == 0 || pos + 1 + buf[pos] > buf.len() {
    } else {
        let next = pos + 1 + buf[pos];
        assert(nth_pointer(buf, next, hops) == nth_pointer(buf, pos, hops));
        lemma_out_of_hops(buf, next, hops);
    }
}

/// A walk that ends before it has used up its hops gives the same with
/// more hops to spend.
proof fn lemma_hops_to_spare(buf: Seq<u8>, pos: int, hops: nat, more: nat)
    requires
        nth_pointer(buf, pos, hops) < 0,
        more >= hops,
    ensures
        walk_name(buf, pos, more) == walk_name(buf, pos, hops),
    decreases hops, buf.len() - pos,
{
    if pos < 0 || pos >= buf.len() {
    } else if is_pointer(buf[pos]) {
        if pos + 1 < buf.len() && pointer_target(buf[pos], buf[pos + 1]) < pos {
            lemma_hops_to_spare(
                buf,
                pointer_target(buf[pos], buf[pos + 1]),
                (hops - 1) as nat,
                (more - 1) as nat,
            );
        }
    } else if buf[pos] == 0 || pos + 1 + buf[pos] > buf.len() {
    } else {
        let next = pos + 1 + buf[pos];
        assert(nth_pointer(buf, next, hops) == nth_pointer(buf, pos, hops));
        lemma_hops_to_spare(buf, next, hops, more);
    }
}

/// The limit on hops refuses no name that a greater limit would let
/// through: with any number of hops from the length of the buffer upwards,
/// reading a name gives what [`name_at`] gives. What the limit refuses is a
/// chain of pointers that never ends.
pub proof fn lemma_more_hops_change_nothing(buf: Seq<u8>, pos: int, hops: nat)
    requires
        hops >= buf.len(),
    ensures
        walk_name(buf, pos, hops) == name_at(buf, pos),
{
    if nth_pointer(buf, pos, buf.len()) < 0 {
        lemma_hops_to_spare(buf, pos, buf.len(), hops);
    } else {
        lemma_long_chain_never_ends(buf, pos, hops);
        lemma_out_of_hops(buf, pos, hops);
        lemma_out_of_hops(buf, pos, buf.len());
    }
}

} // verus!
