//! Domain names on the wire: labels, compression pointers and text.
//!
//! On the wire a name is a run of labels, each preceded by one octet that
//! gives its length, closed by a zero octet. Where a length is expected, an
//! octet whose two highest bits are set starts a two-octet pointer instead:
//! the name goes on at the offset that the remaining fourteen bits give,
//! counted from the start of the message.

use vstd::prelude::*;
use vstd::slice::*;
use crate::error::DnsError;

verus! {

/// The octet that separates the labels of a name written as text (`.`).
pub const DOT: u8 = 0x2E;

/// The greatest length of a label, in octets.
pub const MAX_LABEL_LEN: usize = 63;

/// The least value of an octet that starts a compression pointer.
pub const POINTER_MARK: u8 = 0xC0;

/// Whether an octet found where a length is expected starts a pointer: its
/// two highest bits are both set.
pub open spec fn is_pointer(b: u8) -> bool {
    b >= POINTER_MARK
}

/// The offset that the pointer with octets `b0`, `b1` names: the low six bits
/// of `b0` followed by the eight bits of `b1`.
pub open spec fn pointer_target(b0: u8, b1: u8) -> int
    recommends
        is_pointer(b0),
{
    (b0 - POINTER_MARK) * 256 + b1
}

/// What reading a name gives: its labels, and the offset at which whatever
/// follows the name in the enclosing structure begins.
pub type NameWalk = Result<(Seq<Seq<u8>>, int), DnsError>;

/// Reads the name that starts at `pos`, following at most `hops` pointers.
///
/// A pointer must name an offset strictly below its own. At a pointer the
/// enclosing structure resumes two octets further on, wherever the pointer
/// leads.
pub open spec fn walk_name(buf: Seq<u8>, pos: int, hops: nat) -> NameWalk
    decreases hops, buf.len() - pos,
{
    if pos < 0 || pos >= buf.len() {
        Err(DnsError::Truncated)
    } else if is_pointer(buf[pos]) {
        if pos + 1 >= buf.len() {
            Err(DnsError::Truncated)
        } else if pointer_target(buf[pos], buf[pos + 1]) >= pos || hops == 0 {
            Err(DnsError::MalformedPointer)
        } else {
            match walk_name(buf, pointer_target(buf[pos], buf[pos + 1]), (hops - 1) as nat) {
                Ok((labels, _)) => Ok((labels, pos + 2)),
                Err(e) => Err(e),
            }
        }
    } else if buf[pos] == 0 {
        Ok((Seq::empty(), pos + 1))
    } else if pos + 1 + buf[pos] > buf.len() {
        Err(DnsError::Truncated)
    } else {
        match walk_name(buf, pos + 1 + buf[pos], hops) {
            Ok((labels, next)) => Ok(
                (seq![buf.subrange(pos + 1, pos + 1 + buf[pos])] + labels, next),
            ),
            Err(e) => Err(e),
        }
    }
}

/// The name that starts at `pos` in the message `buf`.
///
/// A chain of pointers that revisits none of them holds fewer pointers than
/// the message has octets, so that many are followed and no more.
pub open spec fn name_at(buf: Seq<u8>, pos: int) -> NameWalk {
    walk_name(buf, pos, buf.len())
}

/// A name that is read ends inside the buffer, behind where it starts.
pub proof fn lemma_walk_bounds(buf: Seq<u8>, pos: int, hops: nat)
    ensures
        walk_name(buf, pos, hops) matches Ok((_, next)) ==> 0 <= pos < next <= buf.len(),
    decreases hops, buf.len() - pos,
{
    if pos < 0 || pos >= buf.len() {
    } else if is_pointer(buf[pos]) {
    } else if buf[pos] == 0 {
    } else if pos + 1 + buf[pos] > buf.len() {
    } else {
        lemma_walk_bounds(buf, pos + 1 + buf[pos], hops);
    }
}

/// Whether the walk from `pos` comes to the offset `at` to read a length
/// or a pointer there.
pub open spec fn comes_to(buf: Seq<u8>, pos: int, hops: nat, at: int) -> bool
    decreases hops, buf.len() - pos,
{
    if pos < 0 || pos >= buf.len() {
        false
    } else if pos == at {
        true
    } else if is_pointer(buf[pos]) {
        pos + 1 < buf.len() && pointer_target(buf[pos], buf[pos + 1]) < pos && hops > 0
            && comes_to(buf, pointer_target(buf[pos], buf[pos + 1]), (hops - 1) as nat, at)
    } else if buf[pos] == 0 || pos + 1 + buf[pos] > buf.len() {
        false
    } else {
        comes_to(buf, pos + 1 + buf[pos], hops, at)
    }
}

/// The labels held by a vector of byte vectors.
pub open spec fn labels_view(v: Seq<Vec<u8>>) -> Seq<Seq<u8>> {
    Seq::new(v.len(), |i: int| v[i]@)
}

/// What a walk that already holds the labels `acc`, and may already have
/// followed a pointer, makes of the rest of the walk.
spec fn resumed(acc: Seq<Seq<u8>>, resume: Option<int>, rest: NameWalk) -> NameWalk {
    match rest {
        Ok((labels, next)) => Ok(
            (
                acc + labels,
                match resume {
                    Some(p) => p,
                    None => next,
                },
            ),
        ),
        Err(e) => Err(e),
    }
}

/// Reads the name that starts at `start`: its labels as raw octets, and the
/// offset at which the enclosing structure resumes.
pub fn parse_name(buf: &[u8], start: usize) -> (r: Result<(Vec<Vec<u8>>, usize), DnsError>)
    ensures
        match r {
            Ok((labels, next)) => name_at(buf@, start as int) == Ok::<(Seq<Seq<u8>>, int), DnsError>(
                (labels_view(labels@), next as int),
            ),
            Err(e) => name_at(buf@, start as int) == Err::<(Seq<Seq<u8>>, int), DnsError>(e),
        },
        r matches Ok((_, next)) ==> start < next <= buf@.len(),
{
    let mut labels: Vec<Vec<u8>> = Vec::new();
    let mut pos: usize = start;
    let mut hops: usize = buf.len();
    let mut resume: Option<usize> = None;
    if pos >= buf.len() {
        return Err(DnsError::Truncated);
    }
    loop
        invariant
            pos <= buf@.len(),
            hops <= buf@.len(),
            resume matches Some(p) ==> p <= buf@.len(),
            name_at(buf@, start as int) == resumed(
                labels_view(labels@),
                match resume {
                    Some(p) => Some(p as int),
                    None => None,
                },
                walk_name(buf@, pos as int, hops as nat),
            ),
        decreases hops, buf@.len() - pos,
    {
        if pos >= buf.len() {
            return Err(DnsError::Truncated);
        }
        let b: u8 = buf[pos];
        if b >= POINTER_MARK {
            if pos + 1 >= buf.len() {
                return Err(DnsError::Truncated);
            }
            let high: usize = (b - POINTER_MARK) as usize;
            let target: usize = high * 256 + buf[pos + 1] as usize;
            if target >= pos || hops == 0 {
                return Err(DnsError::MalformedPointer);
            }
            if resume.is_none() {
                resume = Some(pos + 2);
            }
            pos = target;
            hops = hops - 1;
        } else if b == 0 {
            let next: usize = match resume {
                Some(p) => p,
                None => pos + 1,
            };
            proof {
                assert(labels_view(labels@) + Seq::<Seq<u8>>::empty() =~= labels_view(labels@));
                lemma_walk_bounds(buf@, start as int, buf@.len());
            }
            return Ok((labels, next));
        } else {
            let len: usize = b as usize;
            if len > buf.len() - pos - 1 {
                return Err(DnsError::Truncated);
            }
            let label: Vec<u8> = slice_to_vec(slice_subrange(buf, pos + 1, pos + 1 + len));
            proof {
                let ghost before = labels_view(labels@);
                let ghost one = seq![buf@.subrange(pos + 1, pos + 1 + len)];
                assert(labels_view(labels@.push(label)) =~= before + one);
                assert forall|rest: Seq<Seq<u8>>| before + (one + rest) =~= (before + one) + rest by {}
            }
            labels.push(label);
            pos = pos + 1 + len;
        }
    }
}

/// The offset of the first dot at or after `from`, or the length of `name`
/// where there is none.
pub open spec fn label_end(name: Seq<u8>, from: int) -> int
    decreases name.len() - from,
{
    if from >= name.len() || name[from] == DOT {
        from
    } else {
        label_end(name, from + 1)
    }
}

/// The labels of the part of `name` that starts at `from`: the runs of
/// octets between dots. A name of n dots has n + 1 labels, empty ones among
/// them where two dots meet or the part starts or ends with a dot.
pub open spec fn split_from(name: Seq<u8>, from: int) -> Seq<Seq<u8>>
    recommends
        0 <= from <= name.len(),
    decreases name.len() - from,
    via split_from_decreases
{
    let end = label_end(name, from);
    if end >= name.len() {
        seq![name.subrange(from, name.len() as int)]
    } else {
        seq![name.subrange(from, end)] + split_from(name, end + 1)
    }
}

#[via_fn]
proof fn split_from_decreases(name: Seq<u8>, from: int) {
    lemma_label_end_below(name, from);
}

/// `label_end` never lies before the offset it starts from.
proof fn lemma_label_end_below(name: Seq<u8>, from: int)
    ensures
        from <= label_end(name, from),
    decreases name.len() - from,
{
    if !(from >= name.len() || name[from] == DOT) {
        lemma_label_end_below(name, from + 1);
    }
}

/// The labels of a name written as text.
pub open spec fn split_name(name: Seq<u8>) -> Seq<Seq<u8>> {
    split_from(name, 0)
}

/// Whether a label can be sent: it is not empty and not too long.
pub open spec fn label_ok(label: Seq<u8>) -> bool {
    1 <= label.len() <= MAX_LABEL_LEN
}

/// Whether every label can be sent.
pub open spec fn labels_ok(labels: Seq<Seq<u8>>) -> bool {
    forall|i: int| 0 <= i < labels.len() ==> label_ok(#[trigger] labels[i])
}

/// The wire form of a run of labels: each preceded by its length, and a
/// zero octet at the end.
pub open spec fn labels_octets(labels: Seq<Seq<u8>>) -> Seq<u8>
    decreases labels.len(),
{
    if labels.len() == 0 {
        seq![0u8]
    } else {
        seq![labels[0].len() as u8] + labels[0] + labels_octets(labels.drop_first())
    }
}

/// The wire form of a name written as text, where each of its labels can be
/// sent.
pub open spec fn name_octets(name: Seq<u8>) -> Result<Seq<u8>, DnsError> {
    if labels_ok(split_name(name)) {
        Ok(labels_octets(split_name(name)))
    } else {
        Err(DnsError::InvalidName)
    }
}

/// `label_end` is a dot or the end, and no dot lies before it.
pub proof fn lemma_label_end(name: Seq<u8>, from: int)
    requires
        0 <= from <= name.len(),
    ensures
        from <= label_end(name, from) <= name.len(),
        label_end(name, from) < name.len() ==> name[label_end(name, from)] == DOT,
        forall|k: int| from <= k < label_end(name, from) ==> name[k] != DOT,
    decreases name.len() - from,
{
    if from < name.len() && name[from] != DOT {
        lemma_label_end(name, from + 1);
    }
}

/// Puts a label in front of a run of labels.
proof fn lemma_labels_cons(first: Seq<u8>, rest: Seq<Seq<u8>>)
    ensures
        labels_ok(seq![first] + rest) <==> label_ok(first) && labels_ok(rest),
        labels_octets(seq![first] + rest) == seq![first.len() as u8] + first + labels_octets(rest),
{
    let all = seq![first] + rest;
    assert(all[0] == first);
    assert(all.drop_first() =~= rest);
    if label_ok(first) && labels_ok(rest) {
        assert forall|i: int| 0 <= i < all.len() implies label_ok(#[trigger] all[i]) by {
            if i > 0 {
                assert(all[i] == rest[i - 1]);
            }
        }
    }
    if labels_ok(all) {
        assert forall|i: int| 0 <= i < rest.len() implies label_ok(#[trigger] rest[i]) by {
            assert(rest[i] == all[i + 1]);
        }
    }
}

/// Writes a name given as text in its wire form: splits it at the dots and
/// sends each label behind its length. Fails where a label is empty or
/// longer than 63 octets.
pub fn encode_name(name: &[u8]) -> (r: Result<Vec<u8>, DnsError>)
    ensures
        match r {
            Ok(out) => name_octets(name@) == Ok::<Seq<u8>, DnsError>(out@),
            Err(e) => name_octets(name@) == Err::<Seq<u8>, DnsError>(e),
        },
{
    let n: usize = name.len();
    let mut out: Vec<u8> = Vec::new();
    let mut from: usize = 0;
    loop
        invariant
            n == name@.len(),
            from <= n,
            labels_ok(split_name(name@)) <==> labels_ok(split_from(name@, from as int)),
            labels_ok(split_name(name@)) ==> labels_octets(split_name(name@)) == out@
                + labels_octets(split_from(name@, from as int)),
        decreases n - from,
    {
        let mut end: usize = from;
        while end < n && name[end] != DOT
            invariant
                n == name@.len(),
                from <= end <= n,
                label_end(name@, from as int) == label_end(name@, end as int),
            decreases n - end,
        {
            end = end + 1;
        }
        let len: usize = end - from;
        let ghost label = name@.subrange(from as int, end as int);
        let ghost rest = if end < n {
            split_from(name@, end + 1)
        } else {
            Seq::<Seq<u8>>::empty()
        };
        proof {
            assert(split_from(name@, from as int) =~= seq![label] + rest);
            lemma_labels_cons(label, rest);
        }
        if len == 0 || len > MAX_LABEL_LEN {
            return Err(DnsError::InvalidName);
        }
        let ghost before = out@;
        out.push(len as u8);
        let mut k: usize = from;
        while k < end
            invariant
                from <= k <= end <= n,
                n == name@.len(),
                out@ == before + seq![len as u8] + name@.subrange(from as int, k as int),
            decreases end - k,
        {
            out.push(name[k]);
            assert(name@.subrange(from as int, k as int).push(name@[k as int]) =~= name@.subrange(
                from as int,
                k + 1,
            ));
            k = k + 1;
        }
        if end >= n {
            out.push(0);
            assert(rest.len() == 0);
            assert(out@ =~= before + (seq![len as u8] + label + labels_octets(rest)));
            return Ok(out);
        }
        assert(out@ + labels_octets(rest) =~= before + (seq![len as u8] + label + labels_octets(
            rest,
        )));
        from = end + 1;
    }
}

} // verus!
