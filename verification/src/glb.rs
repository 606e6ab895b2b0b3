//! Binary glTF framing: little-endian packing of 32-bit words and the GLB
//! container (header, padded JSON chunk, binary chunk).
use vstd::prelude::*;

verus! {

/// `glTF` read as a little-endian word.
pub const GLB_MAGIC: u32 = 0x4654_6C67;

/// Container version written in the header.
pub const GLB_VERSION: u32 = 2;

/// `JSON` read as a little-endian word.
pub const GLB_CHUNK_JSON: u32 = 0x4E4F_534A;

/// `BIN` and a zero byte read as a little-endian word.
pub const GLB_CHUNK_BIN: u32 = 0x004E_4942;

/// Byte that pads the JSON chunk (a space).
pub const GLB_JSON_PAD: u8 = 0x20;

/// The four bytes of `x`, least significant first.
pub open spec fn u32_le(x: u32) -> Seq<u8> {
    seq![
        (x % 256) as u8,
        ((x / 256) % 256) as u8,
        ((x / 65536) % 256) as u8,
        (x / 16777216) as u8,
    ]
}

/// The words of `w`, each as its four little-endian bytes, in order.
pub open spec fn words_le(w: Seq<u32>) -> Seq<u8>
    decreases w.len(),
{
    if w.len() == 0 {
        Seq::empty()
    } else {
        words_le(w.drop_last()) + u32_le(w.last())
    }
}

/// The smallest multiple of four that is at least `n`.
pub open spec fn pad4(n: int) -> int {
    (n + 3) / 4 * 4
}

/// A complete GLB file holding the JSON text `json` and the binary buffer `bin`.
///
/// The header gives the total length, the JSON chunk is padded with spaces to a
/// multiple of four bytes, and the binary chunk follows unpadded. Lengths that
/// do not fit in 32 bits are written truncated.
pub open spec fn glb_bytes(json: Seq<u8>, bin: Seq<u8>) -> Seq<u8> {
    let padded = pad4(json.len() as int);
    let total = 12 + 8 + padded + 8 + bin.len();
    u32_le(GLB_MAGIC) + u32_le(GLB_VERSION) + u32_le(total as u32) + u32_le(padded as u32) + u32_le(
        GLB_CHUNK_JSON,
    ) + json + Seq::new((padded - json.len()) as nat, |i: int| GLB_JSON_PAD) + u32_le(bin.len() as u32)
        + u32_le(GLB_CHUNK_BIN) + bin
}

proof fn lemma_words_le_len(w: Seq<u32>)
    ensures
        words_le(w).len() == 4 * w.len(),
    decreases w.len(),
{
    if w.len() > 0 {
        lemma_words_le_len(w.drop_last());
    }
}

/// Appends the four little-endian bytes of `x`.
fn push_u32_le(out: &mut Vec<u8>, x: u32)
    ensures
        final(out)@ == old(out)@ + u32_le(x),
{
    out.push((x % 256) as u8);
    out.push(((x / 256) % 256) as u8);
    out.push(((x / 65536) % 256) as u8);
    out.push((x / 16777216) as u8);
    assert(final(out)@ =~= old(out)@ + u32_le(x)) by {
        assert(out@ =~= old(out)@ + u32_le(x));
    }
}

/// Appends every byte of `src`.
fn push_bytes(out: &mut Vec<u8>, src: &[u8])
    ensures
        final(out)@ == old(out)@ + src@,
{
    let ghost start = out@;
    let mut i: usize = 0;
    while i < src.len()
        invariant
            i <= src@.len(),
            out@ == start + src@.subrange(0, i as int),
        decreases src@.len() - i,
    {
        out.push(src[i]);
        i = i + 1;
        assert(out@ =~= start + src@.subrange(0, i as int));
    }
    assert(src@.subrange(0, src@.len() as int) =~= src@);
}

/// Appends `words` as consecutive little-endian 32-bit values.
fn append_words(out: &mut Vec<u8>, words: &[u32])
    ensures
        final(out)@ == old(out)@ + words_le(words@),
{
    let ghost start = out@;
    let mut i: usize = 0;
    while i < words.len()
        invariant
            i <= words@.len(),
            out@ == start + words_le(words@.subrange(0, i as int)),
        decreases words@.len() - i,
    {
        push_u32_le(out, words[i]);
        proof {
            let s = words@.subrange(0, i + 1);
            assert(s.drop_last() =~= words@.subrange(0, i as int));
            assert(s.last() == words@[i as int]);
            assert(out@ =~= start + words_le(s));
        }
        i = i + 1;
    }
    assert(words@.subrange(0, words@.len() as int) =~= words@);
}

/// Packs `words` as consecutive little-endian 32-bit values.
///
/// Vertex positions are packed through their IEEE-754 bit patterns, which gives
/// the same bytes as writing the floats themselves.
pub fn pack_u32_le(words: &[u32]) -> (r: Vec<u8>)
    ensures
        r@ == words_le(words@),
        r@.len() == 4 * words@.len(),
{
    let mut out: Vec<u8> = Vec::new();
    append_words(&mut out, words);
    assert(out@ =~= words_le(words@));
    proof {
        lemma_words_le_len(words@);
    }
    out
}

/// The geometry of one mesh as 32-bit words: position bit patterns, three per
/// vertex, and corner indices.
pub struct MeshWords {
    pub vertices: Vec<u32>,
    pub indices: Vec<u32>,
}

/// Where the arrays of one mesh lie in the shared binary buffer, in bytes.
#[derive(Clone, Copy, Debug, PartialEq, Eq)]
pub struct BufferSlices {
    pub vertex_offset: usize,
    pub vertex_length: usize,
    pub index_offset: usize,
    pub index_length: usize,
}

/// The shared buffer of the first `k` meshes: each mesh's positions, then its indices.
pub open spec fn scene_buffer_upto(meshes: Seq<MeshWords>, k: int) -> Seq<u8>
    decreases k,
{
    if k <= 0 {
        Seq::empty()
    } else {
        scene_buffer_upto(meshes, k - 1) + words_le(meshes[k - 1].vertices@) + words_le(
            meshes[k - 1].indices@,
        )
    }
}

/// Number of bytes that the first `k` meshes take in the shared buffer.
pub open spec fn scene_buffer_len(meshes: Seq<MeshWords>, k: int) -> int
    decreases k,
{
    if k <= 0 {
        0
    } else {
        scene_buffer_len(meshes, k - 1) + 4 * meshes[k - 1].vertices@.len() + 4 * meshes[k
            - 1].indices@.len()
    }
}

proof fn lemma_scene_buffer_len(meshes: Seq<MeshWords>, k: int)
    requires
        0 <= k <= meshes.len(),
    ensures
        scene_buffer_upto(meshes, k).len() == scene_buffer_len(meshes, k),
        forall|j: int| 0 <= j <= k ==> #[trigger] scene_buffer_len(meshes, j) <= scene_buffer_len(meshes, k),
    decreases k,
{
    if k > 0 {
        lemma_scene_buffer_len(meshes, k - 1);
        lemma_words_le_len(meshes[k - 1].vertices@);
        lemma_words_le_len(meshes[k - 1].indices@);
    }
}

/// Packs the geometry of all meshes into one binary buffer, each mesh's positions
/// followed by its indices, and tells where each array lies.
pub fn pack_scene_buffer(meshes: &[MeshWords]) -> (r: (Vec<u8>, Vec<BufferSlices>))
    requires
        scene_buffer_len(meshes@, meshes@.len() as int) <= usize::MAX,
    ensures
        r.0@ == scene_buffer_upto(meshes@, meshes@.len() as int),
        r.1@.len() == meshes@.len(),
        forall|k: int|
            0 <= k < meshes@.len() ==> {
                let s = #[trigger] r.1@[k];
                &&& s.vertex_offset == scene_buffer_len(meshes@, k)
                &&& s.vertex_length == 4 * meshes@[k].vertices@.len()
                &&& s.index_offset == s.vertex_offset + s.vertex_length
                &&& s.index_length == 4 * meshes@[k].indices@.len()
            },
{
    let mut buffer: Vec<u8> = Vec::new();
    let mut slices: Vec<BufferSlices> = Vec::new();
    let mut k: usize = 0;
    proof {
        lemma_scene_buffer_len(meshes@, meshes@.len() as int);
    }
    while k < meshes.len()
        invariant
            k <= meshes@.len(),
            scene_buffer_len(meshes@, meshes@.len() as int) <= usize::MAX,
            forall|j: int|
                0 <= j <= meshes@.len() ==> #[trigger] scene_buffer_len(meshes@, j) <= scene_buffer_len(
                    meshes@,
                    meshes@.len() as int,
                ),
            buffer@ == scene_buffer_upto(meshes@, k as int),
            slices@.len() == k,
            forall|j: int|
                0 <= j < k ==> {
                    let s = #[trigger] slices@[j];
                    &&& s.vertex_offset == scene_buffer_len(meshes@, j)
                    &&& s.vertex_length == 4 * meshes@[j].vertices@.len()
                    &&& s.index_offset == s.vertex_offset + s.vertex_length
                    &&& s.index_length == 4 * meshes@[j].indices@.len()
                },
        decreases meshes@.len() - k,
    {
        proof {
            lemma_scene_buffer_len(meshes@, k as int);
            lemma_scene_buffer_len(meshes@, k + 1);
            lemma_words_le_len(meshes@[k as int].vertices@);
            lemma_words_le_len(meshes@[k as int].indices@);
        }
        let m = &meshes[k];
        let vertex_offset = buffer.len();
        append_words(&mut buffer, m.vertices.as_slice());
        let index_offset = buffer.len();
        append_words(&mut buffer, m.indices.as_slice());
        slices.push(
            BufferSlices {
                vertex_offset,
                vertex_length: index_offset - vertex_offset,
                index_offset,
                index_length: buffer.len() - index_offset,
            },
        );
        k = k + 1;
    }
    (buffer, slices)
}

/// Frames the JSON text `json` and the binary buffer `bin` as a GLB file.
pub fn glb_container(json: &[u8], bin: &[u8]) -> (r: Vec<u8>)
    requires
        json@.len() + bin@.len() + 40 <= usize::MAX,
    ensures
        r@ == glb_bytes(json@, bin@),
{
    let mut padded: usize = json.len();
    while padded % 4 != 0
        invariant
            json@.len() <= padded <= json@.len() + 3,
            json@.len() + bin@.len() + 40 <= usize::MAX,
            padded <= pad4(json@.len() as int),
        decreases json@.len() + 3 - padded,
    {
        padded = padded + 1;
    }
    assert(padded == pad4(json@.len() as int));
    let total: usize = 12 + 8 + padded + 8 + bin.len();
    let mut out: Vec<u8> = Vec::new();
    push_u32_le(&mut out, GLB_MAGIC);
    push_u32_le(&mut out, GLB_VERSION);
    push_u32_le(&mut out, total as u32);
    push_u32_le(&mut out, padded as u32);
    push_u32_le(&mut out, GLB_CHUNK_JSON);
    push_bytes(&mut out, json);
    let ghost before_pad = out@;
    let mut k: usize = json.len();
    while k < padded
        invariant
            json@.len() <= k <= padded,
            out@ == before_pad + Seq::new((k - json@.len()) as nat, |i: int| GLB_JSON_PAD),
        decreases padded - k,
    {
        out.push(GLB_JSON_PAD);
        k = k + 1;
        assert(out@ =~= before_pad + Seq::new((k - json@.len()) as nat, |i: int| GLB_JSON_PAD));
    }
    push_u32_le(&mut out, bin.len() as u32);
    push_u32_le(&mut out, GLB_CHUNK_BIN);
    push_bytes(&mut out, bin);
    assert(out@ =~= glb_bytes(json@, bin@));
    out
}

} // verus!
