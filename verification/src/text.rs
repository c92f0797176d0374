//! Names as text: labels joined by dots.

use vstd::prelude::*;
use vstd::string::*;
use vstd::utf8::*;
use crate::error::DnsError;
use crate::name::{labels_view, name_at, parse_name};

verus! {

/// The text that `String::from_utf8_lossy` makes of octets that are not
/// well-formed UTF-8, each malformed run replaced by U+FFFD.
pub uninterp spec fn lossy_text(bytes: Seq<u8>) -> Seq<char>;

/// The text of one label: its octets read as UTF-8, and made into text by
/// best-effort replacement where they are not well-formed.
pub open spec fn label_text(bytes: Seq<u8>) -> Seq<char> {
    if valid_utf8(bytes) {
        decode_utf8(bytes)
    } else {
        lossy_text(bytes)
    }
}

/// Calls `String::from_utf8_lossy` and takes the result as an owned string.
///
/// Trusted: well-formed UTF-8 comes back as the text it encodes; for any
/// other input the result is the function's replacement text, which is
/// determined by the octets alone.
#[verifier::external_body]
fn text_of_octets(bytes: &[u8]) -> (text: String)
    ensures
        text@ == label_text(bytes@),
        !valid_utf8(bytes@) ==> text@ == lossy_text(bytes@),
{
    String::from_utf8_lossy(bytes).into_owned()
}

/// The parts joined into one text, a dot between neighbours.
pub open spec fn join_text(parts: Seq<Seq<char>>) -> Seq<char>
    decreases parts.len(),
{
    if parts.len() == 0 {
        Seq::empty()
    } else if parts.len() == 1 {
        parts[0]
    } else {
        parts[0] + seq!['.'] + join_text(parts.drop_first())
    }
}

/// The text of each label.
pub open spec fn label_texts(labels: Seq<Seq<u8>>) -> Seq<Seq<char>> {
    Seq::new(labels.len(), |i: int| label_text(labels[i]))
}

/// The name that the labels spell.
pub open spec fn name_text(labels: Seq<Seq<u8>>) -> Seq<char> {
    join_text(label_texts(labels))
}

/// The texts held by a vector of strings.
pub open spec fn strings_view(v: Seq<String>) -> Seq<Seq<char>> {
    Seq::new(v.len(), |i: int| v[i]@)
}

/// Joins the parts into one string, a dot between neighbours.
pub fn join_labels(parts: &Vec<String>) -> (name: String)
    ensures
        name@ == join_text(strings_view(parts@)),
{
    let ghost all = strings_view(parts@);
    let mut name = String::new();
    if parts.len() == 0 {
        return name;
    }
    name.append(parts[0].as_str());
    assert(name@ =~= all[0]);
    let mut i: usize = 1;
    while i < parts.len()
        invariant
            1 <= i <= parts@.len(),
            all == strings_view(parts@),
            i < parts@.len() ==> join_text(all) == name@ + seq!['.'] + join_text(all.skip(i as int)),
            i == parts@.len() ==> join_text(all) == name@,
        decreases parts@.len() - i,
    {
        proof {
            reveal_strlit(".");
            assert("."@ =~= seq!['.']);
            let rest = all.skip(i as int);
            assert(rest[0] == all[i as int]);
            assert(rest.drop_first() =~= all.skip(i + 1));
        }
        let ghost before = name@;
        name.append(".");
        name.append(parts[i].as_str());
        assert(name@ =~= before + seq!['.'] + all[i as int]);
        i = i + 1;
    }
    name
}

/// The text of the name whose labels are given as raw octets.
pub fn labels_to_text(labels: &Vec<Vec<u8>>) -> (name: String)
    ensures
        name@ == name_text(labels_view(labels@)),
{
    let mut parts: Vec<String> = Vec::new();
    let mut i: usize = 0;
    while i < labels.len()
        invariant
            i <= labels@.len(),
            parts@.len() == i,
            forall|k: int| 0 <= k < i ==> (#[trigger] parts@[k])@ == label_text(labels@[k]@),
        decreases labels@.len() - i,
    {
        let part = text_of_octets(labels[i].as_slice());
        parts.push(part);
        i = i + 1;
    }
    assert(strings_view(parts@) =~= label_texts(labels_view(labels@)));
    join_labels(&parts)
}

/// What reading a name as text gives: the name, and the offset at which
/// whatever follows it begins.
pub type TextWalk = Result<(Seq<char>, int), DnsError>;

/// The name that starts at `pos` in the message `buf`, as text.
pub open spec fn text_name_at(buf: Seq<u8>, pos: int) -> TextWalk {
    match name_at(buf, pos) {
        Ok((labels, next)) => Ok((name_text(labels), next)),
        Err(e) => Err(e),
    }
}

/// Reads the name that starts at `pos`, following compression pointers, and
/// gives it as text together with the offset at which the enclosing
/// structure resumes.
pub fn decode_name(buf: &[u8], pos: usize) -> (r: Result<(String, usize), DnsError>)
    ensures
        match r {
            Ok((name, next)) => text_name_at(buf@, pos as int) == Ok::<(Seq<char>, int), DnsError>(
                (name@, next as int),
            ),
            Err(e) => text_name_at(buf@, pos as int) == Err::<(Seq<char>, int), DnsError>(e),
        },
        r matches Ok((_, next)) ==> pos < next <= buf@.len(),
{
    match parse_name(buf, pos) {
        Ok((labels, next)) => Ok((labels_to_text(&labels), next)),
        Err(e) => Err(e),
    }
}

} // verus!
