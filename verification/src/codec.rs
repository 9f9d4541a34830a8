use vstd::bytes::{
    lemma_auto_spec_u32_to_from_le_bytes, spec_u32_from_le_bytes, spec_u32_to_le_bytes,
    u32_from_le_bytes, u32_to_le_bytes,
};
use vstd::prelude::*;
use vstd::slice::{slice_subrange, slice_to_vec};

verus! {

/// One serialized tree-level record: the raw bytes of a data value, the raw
/// bytes of its digest, and the index of the level the record belongs to.
#[derive(Debug, PartialEq, Eq)]
pub struct SerializedNode {
    pub data: Vec<u8>,
    pub digest: Vec<u8>,
    pub level: u32,
}

impl SerializedNode {
    /// The record as a triple of plain values.
    pub open spec fn view_triple(&self) -> (Seq<u8>, Seq<u8>, u32) {
        (self.data@, self.digest@, self.level)
    }
}

/// The records of a level as triples of plain values.
pub open spec fn triples_of(nodes: Seq<SerializedNode>) -> Seq<(Seq<u8>, Seq<u8>, u32)> {
    nodes.map_values(|n: SerializedNode| n.view_triple())
}

/// Decode failure: the buffer ends before the declared record does, or the
/// declared length disagrees with the bytes that are actually present.
/// Either way the input is corrupted or mismatched; no partial state is kept.
#[derive(Clone, Copy, Debug, PartialEq, Eq, Structural)]
pub enum CodecError {
    TruncatedHeader,
    LengthMismatch,
}

/// The wire form of one record: a four-byte little-endian combined length
/// of data and digest, a four-byte little-endian level index, then the data
/// bytes and the digest bytes concatenated with no separator.
pub open spec fn encode_node_spec(data: Seq<u8>, digest: Seq<u8>, level: u32) -> Seq<u8> {
    spec_u32_to_le_bytes((data.len() + digest.len()) as u32) + spec_u32_to_le_bytes(level) + data
        + digest
}

/// Reading one record off the front of a buffer: the header, then exactly
/// the declared number of bytes, split at their midpoint into data and
/// digest. Yields the triple and the bytes consumed; nothing when the
/// buffer holds fewer bytes than declared.
pub open spec fn decode_prefix_spec(b: Seq<u8>) -> Option<((Seq<u8>, Seq<u8>, u32), int)> {
    if b.len() < 8 {
        None
    } else {
        let total = spec_u32_from_le_bytes(b.subrange(0, 4)) as int;
        let level = spec_u32_from_le_bytes(b.subrange(4, 8));
        if b.len() - 8 < total {
            None
        } else {
            let half = total / 2;
            Some(((b.subrange(8, 8 + half), b.subrange(8 + half, 8 + total), level), 8 + total))
        }
    }
}

/// Decoding a single record: the buffer must hold exactly one record, no
/// less and no more.
pub open spec fn decode_node_spec(b: Seq<u8>) -> Option<(Seq<u8>, Seq<u8>, u32)> {
    match decode_prefix_spec(b) {
        Some((t, used)) => if used == b.len() {
            Some(t)
        } else {
            None
        },
        None => None,
    }
}

/// Decoding a level: records read back to back until the buffer is
/// exhausted.
pub open spec fn decode_level_spec(b: Seq<u8>) -> Option<Seq<(Seq<u8>, Seq<u8>, u32)>>
    decreases b.len(),
{
    if b.len() == 0 {
        Some(Seq::empty())
    } else {
        match decode_prefix_spec(b) {
            Some((t, used)) => match decode_level_spec(b.skip(used)) {
                Some(rest) => Some(seq![t] + rest),
                None => None,
            },
            None => None,
        }
    }
}

/// Serializes one record into its wire form.
pub fn encode_node(node: &SerializedNode) -> (r: Vec<u8>)
    requires
        node.data@.len() + node.digest@.len() <= u32::MAX,
    ensures
        r@ == encode_node_spec(node.data@, node.digest@, node.level),
{
    let total: u32 = (node.data.len() as u32) + (node.digest.len() as u32);
    let mut out: Vec<u8> = u32_to_le_bytes(total);
    let mut level_bytes = u32_to_le_bytes(node.level);
    out.append(&mut level_bytes);
    let mut data_bytes = node.data.clone();
    proof {
        assert(data_bytes@ =~= node.data@);
    }
    out.append(&mut data_bytes);
    let mut digest_bytes = node.digest.clone();
    proof {
        assert(digest_bytes@ =~= node.digest@);
    }
    out.append(&mut digest_bytes);
    proof {
        assert(out@ =~= encode_node_spec(node.data@, node.digest@, node.level));
    }
    out
}

/// Reads the one record that starts at `start`; yields the record and the
/// position just past it, or the integrity error when the buffer ends
/// before the record does.
pub fn decode_node_at(bytes: &Vec<u8>, start: usize) -> (r: Result<
    (SerializedNode, usize),
    CodecError,
>)
    requires
        start <= bytes@.len(),
    ensures
        match r {
            Ok((node, end)) => {
                &&& decode_prefix_spec(bytes@.skip(start as int)) == Some(
                    (node.view_triple(), end - start as int),
                )
                &&& start < end <= bytes@.len()
            },
            Err(_) => decode_prefix_spec(bytes@.skip(start as int)) is None,
        },
{
    let ghost tail = bytes@.skip(start as int);
    let len = bytes.len();
    if len - start < 8 {
        return Err(CodecError::TruncatedHeader);
    }
    let total32 = u32_from_le_bytes(slice_subrange(bytes.as_slice(), start, start + 4));
    let level = u32_from_le_bytes(slice_subrange(bytes.as_slice(), start + 4, start + 8));
    proof {
        assert(bytes@.subrange(start as int, start as int + 4) =~= tail.subrange(0, 4));
        assert(bytes@.subrange(start as int + 4, start as int + 8) =~= tail.subrange(4, 8));
    }
    let total = total32 as usize;
    if len - (start + 8) < total {
        return Err(CodecError::LengthMismatch);
    }
    let half = total / 2;
    let data = slice_to_vec(slice_subrange(bytes.as_slice(), start + 8, start + 8 + half));
    let digest = slice_to_vec(
        slice_subrange(bytes.as_slice(), start + 8 + half, start + 8 + total),
    );
    proof {
        assert(bytes@.subrange(start as int + 8, start as int + 8 + half as int) =~= tail.subrange(
            8,
            8 + half as int,
        ));
        assert(bytes@.subrange(start as int + 8 + half as int, start as int + 8 + total as int)
            =~= tail.subrange(8 + half as int, 8 + total as int));
    }
    Ok((SerializedNode { data, digest, level }, start + 8 + total))
}

/// Deserializes exactly one record; the whole buffer must be that record.
pub fn decode_node(bytes: &Vec<u8>) -> (r: Result<SerializedNode, CodecError>)
    ensures
        match r {
            Ok(node) => decode_node_spec(bytes@) == Some(node.view_triple()),
            Err(_) => decode_node_spec(bytes@) is None,
        },
{
    proof {
        assert(bytes@.skip(0) =~= bytes@);
    }
    match decode_node_at(bytes, 0) {
        Ok((node, end)) => {
            if end == bytes.len() {
                Ok(node)
            } else {
                Err(CodecError::LengthMismatch)
            }
        },
        Err(e) => Err(e),
    }
}

/// The wire form of a whole level: each record's wire form, back to back.
pub open spec fn encode_level_spec(nodes: Seq<(Seq<u8>, Seq<u8>, u32)>) -> Seq<u8>
    decreases nodes.len(),
{
    if nodes.len() == 0 {
        Seq::empty()
    } else {
        encode_node_spec(nodes[0].0, nodes[0].1, nodes[0].2) + encode_level_spec(
            nodes.drop_first(),
        )
    }
}

/// Serializes a level's records, back to back, into one buffer.
pub fn encode_level(nodes: &Vec<SerializedNode>) -> (r: Vec<u8>)
    requires
        forall|k: int|
            0 <= k < nodes@.len() ==> (#[trigger] nodes@[k]).data@.len() + nodes@[k].digest@.len()
                <= u32::MAX,
    ensures
        r@ == encode_level_spec(triples_of(nodes@)),
{
    let ghost triples = triples_of(nodes@);
    let mut out: Vec<u8> = Vec::new();
    let mut i: usize = 0;
    proof {
        assert(triples.skip(0) =~= triples);
    }
    while i < nodes.len()
        invariant
            i <= nodes.len(),
            triples == triples_of(nodes@),
            forall|k: int|
                0 <= k < nodes@.len() ==> (#[trigger] nodes@[k]).data@.len()
                    + nodes@[k].digest@.len() <= u32::MAX,
            encode_level_spec(triples) == out@ + encode_level_spec(triples.skip(i as int)),
        decreases nodes.len() - i,
    {
        let mut piece = encode_node(&nodes[i]);
        proof {
            let rest = triples.skip(i as int);
            assert(rest[0] == triples[i as int]);
            assert(rest.drop_first() =~= triples.skip(i as int + 1));
            assert(piece@ == encode_node_spec(rest[0].0, rest[0].1, rest[0].2));
        }
        out.append(&mut piece);
        i += 1;
    }
    proof {
        assert(triples.skip(nodes@.len() as int) =~= Seq::<(Seq<u8>, Seq<u8>, u32)>::empty());
        assert(out@ =~= out@ + Seq::<u8>::empty());
    }
    out
}

/// Deserializes a level: records are read back to back until the buffer is
/// exhausted; any integrity error aborts the whole decode.
pub fn decode_level(bytes: &Vec<u8>) -> (r: Result<Vec<SerializedNode>, CodecError>)
    ensures
        match r {
            Ok(nodes) => decode_level_spec(bytes@) == Some(triples_of(nodes@)),
            Err(_) => decode_level_spec(bytes@) is None,
        },
{
    let mut nodes: Vec<SerializedNode> = Vec::new();
    let mut pos: usize = 0;
    proof {
        assert(bytes@.skip(0) =~= bytes@);
        assert(triples_of(nodes@) =~= Seq::<(Seq<u8>, Seq<u8>, u32)>::empty());
    }
    while pos < bytes.len()
        invariant
            pos <= bytes@.len(),
            decode_level_spec(bytes@.skip(pos as int)) matches Some(rest) ==> decode_level_spec(
                bytes@,
            ) == Some(triples_of(nodes@) + rest),
            decode_level_spec(bytes@.skip(pos as int)) is None ==> decode_level_spec(bytes@)
                is None,
        decreases bytes@.len() - pos,
    {
        let ghost before = triples_of(nodes@);
        match decode_node_at(bytes, pos) {
            Ok((node, end)) => {
                let ghost t = node.view_triple();
                proof {
                    assert(bytes@.skip(pos as int).skip(end - pos as int) =~= bytes@.skip(
                        end as int,
                    ));
                }
                nodes.push(node);
                proof {
                    assert(nodes@.drop_last() =~= nodes@.subrange(0, nodes@.len() - 1));
                    assert(triples_of(nodes@) =~= before.push(t));
                    if decode_level_spec(bytes@.skip(end as int)) is Some {
                        let rest2 = decode_level_spec(bytes@.skip(end as int)).unwrap();
                        assert(decode_level_spec(bytes@.skip(pos as int)) == Some(
                            seq![t] + rest2,
                        ));
                        assert(before + (seq![t] + rest2) =~= triples_of(nodes@) + rest2);
                    }
                }
                pos = end;
            },
            Err(e) => {
                proof {
                    assert(bytes@.skip(pos as int).len() > 0);
                    assert(decode_level_spec(bytes@.skip(pos as int)) is None);
                }
                return Err(e);
            },
        }
    }
    proof {
        assert(bytes@.skip(bytes@.len() as int) =~= Seq::<u8>::empty());
        assert(triples_of(nodes@) + Seq::<(Seq<u8>, Seq<u8>, u32)>::empty() =~= triples_of(
            nodes@,
        ));
    }
    Ok(nodes)
}

/// Serializes several levels, one buffer per level.
pub fn encode_levels(levels: &Vec<Vec<SerializedNode>>) -> (r: Vec<Vec<u8>>)
    requires
        forall|k: int, j: int|
            0 <= k < levels@.len() && 0 <= j < levels@[k]@.len() ==> (#[trigger] levels@[k]@[j]).data@.len()
                + levels@[k]@[j].digest@.len() <= u32::MAX,
    ensures
        r@.len() == levels@.len(),
        forall|k: int|
            0 <= k < levels@.len() ==> (#[trigger] r@[k])@ == encode_level_spec(
                triples_of(levels@[k]@),
            ),
{
    let mut out: Vec<Vec<u8>> = Vec::new();
    let mut i: usize = 0;
    while i < levels.len()
        invariant
            i <= levels.len(),
            forall|k: int, j: int|
                0 <= k < levels@.len() && 0 <= j < levels@[k]@.len() ==> (
                #[trigger] levels@[k]@[j]).data@.len() + levels@[k]@[j].digest@.len()
                    <= u32::MAX,
            out@.len() == i,
            forall|k: int|
                0 <= k < i ==> (#[trigger] out@[k])@ == encode_level_spec(
                    triples_of(levels@[k]@),
                ),
        decreases levels.len() - i,
    {
        let buf = encode_level(&levels[i]);
        out.push(buf);
        i += 1;
    }
    out
}

/// Deserializes several levels, one buffer per level; any integrity error
/// in any buffer aborts the whole decode.
pub fn decode_levels(buffers: &Vec<Vec<u8>>) -> (r: Result<Vec<Vec<SerializedNode>>, CodecError>)
    ensures
        match r {
            Ok(levels) => {
                &&& levels@.len() == buffers@.len()
                &&& forall|k: int|
                    0 <= k < buffers@.len() ==> decode_level_spec((#[trigger] buffers@[k])@)
                        == Some(triples_of(levels@[k]@))
            },
            Err(_) => exists|k: int|
                0 <= k < buffers@.len() && decode_level_spec((#[trigger] buffers@[k])@) is None,
        },
{
    let mut out: Vec<Vec<SerializedNode>> = Vec::new();
    let mut i: usize = 0;
    while i < buffers.len()
        invariant
            i <= buffers.len(),
            out@.len() == i,
            forall|k: int|
                0 <= k < i ==> decode_level_spec((#[trigger] buffers@[k])@) == Some(
                    triples_of(out@[k]@),
                ),
        decreases buffers.len() - i,
    {
        match decode_level(&buffers[i]) {
            Ok(nodes) => {
                out.push(nodes);
                i += 1;
            },
            Err(e) => {
                return Err(e);
            },
        }
    }
    Ok(out)
}

/// Codec round-trip: a record whose data and digest have the same byte
/// length is reproduced exactly by decoding its encoding. For unequal
/// lengths the midpoint split makes no such promise, which is a documented
/// limitation of the format rather than a defect to repair here.
pub proof fn lemma_codec_round_trip(data: Seq<u8>, digest: Seq<u8>, level: u32)
    requires
        data.len() == digest.len(),
        data.len() + digest.len() <= u32::MAX,
    ensures
        decode_node_spec(encode_node_spec(data, digest, level)) == Some((data, digest, level)),
{
    lemma_auto_spec_u32_to_from_le_bytes();
    let total = (data.len() + digest.len()) as u32;
    let b = encode_node_spec(data, digest, level);
    assert(spec_u32_to_le_bytes(total).len() == 4);
    assert(spec_u32_to_le_bytes(level).len() == 4);
    assert(b.len() == 8 + data.len() + digest.len());
    assert(b.subrange(0, 4) =~= spec_u32_to_le_bytes(total));
    assert(b.subrange(4, 8) =~= spec_u32_to_le_bytes(level));
    assert(spec_u32_from_le_bytes(b.subrange(0, 4)) == total);
    assert(spec_u32_from_le_bytes(b.subrange(4, 8)) == level);
    let ti = total as int;
    let half = ti / 2;
    assert(half == data.len());
    assert(b.subrange(8, 8 + half) =~= data);
    assert(b.subrange(8 + half, 8 + ti) =~= digest);
    assert(8 + ti == b.len());
}

} // verus!
