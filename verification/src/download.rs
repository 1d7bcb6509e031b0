//! Where a file of the repository is fetched from, and how what was fetched
//! is taken apart: a container of gzip members laid end to end, each of which
//! wraps one tar stream.

use vstd::prelude::*;
use vstd::slice::slice_subrange;

verus! {

/// The repository that is used where no mirror is given.
pub const DEFAULT_MIRROR: &'static str = "https://dl-cdn.alpinelinux.org/edge/main/x86_64";

/// The number of members in the container of the repository index.
pub const INDEX_LAYERS: usize = 2;

/// The number of members in the container of a package; the last one holds
/// the package's files.
pub const PACKAGE_LAYERS: usize = 3;

/// The address of `file_name` below `mirror`, or below the default
/// repository where no mirror is given.
pub open spec fn file_url(file_name: Seq<char>, mirror: Option<Seq<char>>) -> Seq<char> {
    (match mirror {
        Some(base) => base,
        None => DEFAULT_MIRROR@,
    }) + "/"@ + file_name
}

/// The address from which `file_name` is fetched: the mirror, or the default
/// repository where none is given, then a slash and the name.
pub fn get_file_url(file_name: &str, mirror: Option<String>) -> (url: String)
    ensures
        url@ == file_url(
            file_name@,
            match mirror {
                Some(base) => Some(base@),
                None => None,
            },
        ),
{
    let mut url = match mirror {
        Some(base) => base,
        None => DEFAULT_MIRROR.to_owned(),
    };
    url.append("/");
    url.append(file_name);
    url
}

/// The number of members in the container of a package (`package`) or of
/// the repository index.
pub fn layer_count(package: bool) -> (count: usize)
    ensures
        count == if package {
            PACKAGE_LAYERS
        } else {
            INDEX_LAYERS
        },
{
    if package {
        PACKAGE_LAYERS
    } else {
        INDEX_LAYERS
    }
}

/// `std::io::Error`, with which the decoder's reads fail. It is carried,
/// never looked into.
#[verifier::external_type_specification]
#[verifier::external_body]
pub struct ExIoError(std::io::Error);

/// What decompressing the gzip member at the front of `input` gives: the
/// member's data and the number of bytes of `input` that follow the member;
/// `None` where no well-formed member stands there.
pub uninterp spec fn gzip_member(input: Seq<u8>) -> Option<(Seq<u8>, nat)>;

/// Decompresses the gzip member at the front of `input` with
/// `flate2::bufread::GzDecoder`, read to its end, and hands back the data
/// together with the length of what the decoder left unread. The contract
/// names that result and claims nothing else of it.
#[verifier::external_body]
fn gunzip_member(input: &[u8]) -> (member: Result<(Vec<u8>, usize), std::io::Error>)
    ensures
        match member {
            Ok((data, unread)) => gzip_member(input@) == Some((data@, unread as nat)),
            Err(_) => gzip_member(input@) is None,
        },
{
    let mut decoder = flate2::bufread::GzDecoder::new(input);
    let mut data = Vec::new();
    std::io::Read::read_to_end(&mut decoder, &mut data)?;
    Ok((data, decoder.into_inner().len()))
}

/// A container could not be taken apart: the member at position `layer`,
/// counted from 0, is missing or malformed.
#[derive(Debug, Clone, Copy, PartialEq, Eq, Structural)]
pub struct DecodeError {
    pub layer: usize,
}

/// The place in a container of `total` bytes at which the next member
/// starts, when the member that started at `offset` left `unread` bytes
/// behind it; `None` where that is more than the member was given.
pub open spec fn resumed(total: int, offset: int, unread: int) -> Option<int> {
    if 0 <= offset <= total && 0 <= unread <= total - offset {
        Some(total - unread)
    } else {
        None
    }
}

/// The place at which the next member of a container starts: right behind
/// the member that was just read.
pub fn resume_offset(total: usize, offset: usize, unread: usize) -> (next: Option<usize>)
    ensures
        match resumed(total as int, offset as int, unread as int) {
            Some(place) => next == Some(place as usize) && offset <= place <= total,
            None => next is None,
        },
{
    if offset <= total && unread <= total - offset {
        Some(total - unread)
    } else {
        None
    }
}

/// The data of the first `count` members of `input`, in order, where the
/// first of them has the position `first`; or the position of the first
/// member that is missing or malformed.
pub open spec fn decoded_from(input: Seq<u8>, count: nat, first: nat) -> Result<Seq<Seq<u8>>, nat>
    decreases count,
{
    if count == 0 {
        Ok(Seq::empty())
    } else {
        match gzip_member(input) {
            Some((data, unread)) => match resumed(input.len() as int, 0, unread as int) {
                Some(place) => match decoded_from(
                    input.skip(place),
                    (count - 1) as nat,
                    first + 1,
                ) {
                    Ok(rest) => Ok(seq![data] + rest),
                    Err(layer) => Err(layer),
                },
                None => Err(first),
            },
            None => Err(first),
        }
    }
}

/// The data of the `count` members of which the container `input` is made.
pub open spec fn decoded(input: Seq<u8>, count: nat) -> Result<Seq<Seq<u8>>, nat> {
    decoded_from(input, count, 0)
}

/// The contents of a list of byte buffers.
pub open spec fn contents(buffers: Seq<Vec<u8>>) -> Seq<Seq<u8>> {
    buffers.map_values(|data: Vec<u8>| data@)
}

/// Takes a container of `layer_count` gzip members apart and returns the
/// data of each, in order. Each member is looked for right behind the one
/// before it; nothing is assumed of the container's length. It fails at the
/// first member that is missing or malformed.
pub fn decode(bytes: &[u8], layer_count: usize) -> (layers: Result<Vec<Vec<u8>>, DecodeError>)
    ensures
        match decoded(bytes@, layer_count as nat) {
            Ok(members) => layers matches Ok(found) && contents(found@) == members,
            Err(layer) => layers matches Err(e) && e.layer == layer,
        },
{
    let total = bytes.len();
    let mut layers: Vec<Vec<u8>> = Vec::new();
    let mut offset: usize = 0;
    assert(bytes@.skip(0) == bytes@);
    assert(contents(layers@) == Seq::<Seq<u8>>::empty());
    while layers.len() < layer_count
        invariant
            total == bytes@.len(),
            offset <= total,
            layers@.len() <= layer_count,
            decoded(bytes@, layer_count as nat) == (match decoded_from(
                bytes@.skip(offset as int),
                (layer_count - layers@.len()) as nat,
                layers@.len() as nat,
            ) {
                Ok(rest) => Ok(contents(layers@) + rest),
                Err(layer) => Err(layer),
            }),
        decreases layer_count - layers@.len(),
    {
        let input = slice_subrange(bytes, offset, total);
        assert(input@ == bytes@.skip(offset as int));
        let ghost before = layers@;
        match gunzip_member(input) {
            Ok((data, unread)) => match resume_offset(total, offset, unread) {
                Some(next) => {
                    proof {
                        let place = next - offset;
                        assert(resumed(input@.len() as int, 0, unread as int) == Some(place));
                        assert(input@.skip(place) == bytes@.skip(next as int));
                        match decoded_from(
                            input@.skip(place),
                            (layer_count - before.len() - 1) as nat,
                            before.len() as nat + 1,
                        ) {
                            Ok(rest) => {
                                assert(contents(before) + (seq![data@] + rest) == contents(
                                    before.push(data),
                                ) + rest);
                            },
                            Err(_) => {},
                        }
                    }
                    layers.push(data);
                    offset = next;
                },
                None => {
                    return Err(DecodeError { layer: layers.len() });
                },
            },
            Err(_) => {
                return Err(DecodeError { layer: layers.len() });
            },
        }
    }
    assert(contents(layers@) + Seq::<Seq<u8>>::empty() == contents(layers@));
    Ok(layers)
}

/// The bytes of `parts` laid end to end.
pub open spec fn joined(parts: Seq<Seq<u8>>) -> Seq<u8>
    decreases parts.len(),
{
    if parts.len() == 0 {
        Seq::empty()
    } else {
        parts[0] + joined(parts.drop_first())
    }
}

/// Each of `parts` is a gzip member that holds the data at the same place of
/// `data`, whatever follows it in the container that `parts` make.
pub open spec fn members_hold(parts: Seq<Seq<u8>>, data: Seq<Seq<u8>>) -> bool {
    &&& parts.len() == data.len()
    &&& forall|i: int|
        0 <= i < parts.len() ==> gzip_member(#[trigger] joined(parts.skip(i))) == Some(
            (data[i], joined(parts.skip(i + 1)).len()),
        )
}

/// A container made of members laid end to end, taken apart into as many
/// members as it was made of, gives the data of each member, in order.
pub proof fn lemma_decode_container(parts: Seq<Seq<u8>>, data: Seq<Seq<u8>>)
    ensures
        members_hold(parts, data) ==> decoded(joined(parts), parts.len()) == Ok::<
            Seq<Seq<u8>>,
            nat,
        >(data),
{
    if members_hold(parts, data) {
        lemma_decode_from(parts, data, 0);
        assert(parts.skip(0) == parts);
        assert(data.skip(0) == data);
    }
}

/// The members from place `from` on decode to their data.
proof fn lemma_decode_from(parts: Seq<Seq<u8>>, data: Seq<Seq<u8>>, from: int)
    requires
        members_hold(parts, data),
        0 <= from <= parts.len(),
    ensures
        decoded_from(joined(parts.skip(from)), (parts.len() - from) as nat, from as nat) == Ok::<
            Seq<Seq<u8>>,
            nat,
        >(data.skip(from)),
    decreases parts.len() - from,
{
    if from == parts.len() {
        assert(data.skip(from) == Seq::<Seq<u8>>::empty());
    } else {
        let input = joined(parts.skip(from));
        let rest = joined(parts.skip(from + 1));
        assert(parts.skip(from).drop_first() == parts.skip(from + 1));
        assert(input == parts[from] + rest);
        assert(input.skip(input.len() - rest.len()) == rest);
        lemma_decode_from(parts, data, from + 1);
        assert(seq![data[from]] + data.skip(from + 1) == data.skip(from));
    }
}

} // verus!
