use vstd::prelude::*;

verus! {

/// The bytes that open and close every Arrow IPC file.
pub const ARROW_MAGIC: [u8; 6] = [65u8, 82u8, 82u8, 79u8, 87u8, 49u8];

/// The metadata version this writer targets: version 5, whose tag is 4.
pub const METADATA_VERSION: i16 = 4;

/// The largest value of an `i32` length field.
pub const MAX_I32: usize = 2147483647;

/// The largest value of an `i64` offset field.
pub const MAX_I64: u64 = 9223372036854775807;

/// The magic marker as a sequence of bytes.
pub open spec fn magic() -> Seq<u8> {
    seq![65u8, 82u8, 82u8, 79u8, 87u8, 49u8]
}

/// `n` zero bytes.
pub open spec fn zeros(n: nat) -> Seq<u8> {
    Seq::new(n, |i: int| 0u8)
}

/// The number of zero bytes that bring `n` up to a multiple of 8.
pub open spec fn pad8(n: nat) -> nat {
    ((8 - (n % 8) as int) % 8) as nat
}

/// The four little-endian bytes of `v`, taken modulo 2^32.
pub open spec fn le32(v: nat) -> Seq<u8> {
    seq![
        (v % 256) as u8,
        ((v / 256) % 256) as u8,
        ((v / 65536) % 256) as u8,
        ((v / 16777216) % 256) as u8,
    ]
}

/// A continuation marker followed by a length.
pub open spec fn continuation(len: nat) -> Seq<u8> {
    seq![0xffu8, 0xffu8, 0xffu8, 0xffu8] + le32(len)
}

/// The size of a framed message's metadata part: prefix, header and padding.
pub open spec fn meta_len(header: Seq<u8>) -> nat {
    header.len() + 8 + pad8(header.len() + 8)
}

/// The size of a framed message's body part, padded to 8 bytes.
pub open spec fn body_len(body: Seq<u8>) -> nat {
    body.len() + pad8(body.len())
}

/// One framed message: a continuation marker with the padded header length,
/// the header, padding to 8 bytes, then the body padded to 8 bytes.
pub open spec fn frame(header: Seq<u8>, body: Seq<u8>) -> Seq<u8> {
    continuation((meta_len(header) - 8) as nat) + header + zeros(pad8(header.len() + 8)) + body
        + zeros(pad8(body.len()))
}

/// The fixed start of a file: the magic marker and two bytes of padding.
pub open spec fn file_header() -> Seq<u8> {
    magic() + zeros(2)
}

/// What closes a file after its footer: the footer's length and the magic marker.
pub open spec fn trailer(footer: Seq<u8>) -> Seq<u8> {
    footer + le32(footer.len()) + magic()
}

/// The number that four little-endian bytes stand for.
pub open spec fn le32_value(b: Seq<u8>) -> nat {
    b[0] as nat + 256 * (b[1] as nat) + 65536 * (b[2] as nat) + 16777216 * (b[3] as nat)
}

/// Four little-endian bytes read back as the number they were made from.
pub proof fn lemma_le32_round_trip(v: nat)
    requires
        v < 4294967296,
    ensures
        le32(v).len() == 4,
        le32_value(le32(v)) == v,
{
    let b = le32(v);
    assert(b[0] as nat == v % 256);
    assert(b[1] as nat == (v / 256) % 256);
    assert(b[2] as nat == (v / 65536) % 256);
    assert(b[3] as nat == (v / 16777216) % 256);
    assert(v % 256 + 256 * ((v / 256) % 256) + 65536 * ((v / 65536) % 256) + 16777216 * ((v
        / 16777216) % 256) == v) by (nonlinear_arith)
        requires
            v < 4294967296,
    ;
}

/// A file's end holds its footer, then the footer's length as four
/// little-endian bytes, then the magic marker.
pub proof fn lemma_trailer_locates_footer(footer: Seq<u8>)
    requires
        footer.len() <= MAX_I32,
    ensures
        ({
            let t = trailer(footer);
            let n = t.len() as int;
            &&& n == footer.len() + 10
            &&& t.subrange(n - 6, n) == magic()
            &&& t.subrange(n - 10, n - 6) == le32(footer.len())
            &&& le32_value(t.subrange(n - 10, n - 6)) == footer.len()
            &&& t.subrange(0, n - 10) == footer
        }),
{
    let t = trailer(footer);
    let n = t.len() as int;
    lemma_le32_round_trip(footer.len());
    assert(t.subrange(n - 6, n) =~= magic());
    assert(t.subrange(n - 10, n - 6) =~= le32(footer.len()));
    assert(t.subrange(0, n - 10) =~= footer);
}

proof fn lemma_frame_len(header: Seq<u8>, body: Seq<u8>)
    ensures
        frame(header, body).len() == meta_len(header) + body_len(body),
{
}

/// Appends `src` to `out`.
pub fn append_bytes(out: &mut Vec<u8>, src: &[u8])
    ensures
        final(out)@ == old(out)@ + src@,
{
    let mut i: usize = 0;
    while i < src.len()
        invariant
            0 <= i <= src@.len(),
            out@ == old(out)@ + src@.subrange(0, i as int),
        decreases src@.len() - i,
    {
        out.push(src[i]);
        i = i + 1;
        assert(src@.subrange(0, i as int) == src@.subrange(0, i - 1) + seq![src@[i - 1]]);
    }
    assert(src@.subrange(0, src@.len() as int) == src@);
}

/// Appends `n` zero bytes to `out`.
pub fn append_zeros(out: &mut Vec<u8>, n: usize)
    ensures
        final(out)@ == old(out)@ + zeros(n as nat),
{
    let mut i: usize = 0;
    while i < n
        invariant
            0 <= i <= n,
            out@ == old(out)@ + zeros(i as nat),
        decreases n - i,
    {
        out.push(0u8);
        i = i + 1;
        assert(zeros(i as nat) == zeros((i - 1) as nat) + seq![0u8]);
    }
}

/// The four little-endian bytes of `v`.
pub fn le_bytes(v: u32) -> (r: [u8; 4])
    ensures
        r@ == le32(v as nat),
{
    let r = [
        (v % 256) as u8,
        ((v / 256) % 256) as u8,
        ((v / 65536) % 256) as u8,
        ((v / 16777216) % 256) as u8,
    ];
    assert(r@ =~= le32(v as nat));
    r
}

/// Writes a continuation marker and the length `len`, as a message prefix.
pub fn write_continuation(out: &mut Vec<u8>, len: u32)
    ensures
        final(out)@ == old(out)@ + continuation(len as nat),
{
    let marker: [u8; 4] = [0xffu8, 0xffu8, 0xffu8, 0xffu8];
    append_bytes(out, &marker);
    let bytes = le_bytes(len);
    append_bytes(out, &bytes);
    proof {
        assert(marker@ =~= seq![0xffu8, 0xffu8, 0xffu8, 0xffu8]);
        assert(final(out)@ =~= old(out)@ + continuation(len as nat));
    }
}

/// One encoded message: its flatbuffer header and its body.
pub struct EncodedData {
    /// The serialized message header.
    pub ipc_message: Vec<u8>,
    /// The message body.
    pub arrow_data: Vec<u8>,
}

impl View for EncodedData {
    type V = (Seq<u8>, Seq<u8>);

    open spec fn view(&self) -> (Seq<u8>, Seq<u8>) {
        (self.ipc_message@, self.arrow_data@)
    }
}

impl EncodedData {
    /// A copy of this message.
    pub fn duplicate(&self) -> (r: Self)
        ensures
            r@ == self@,
    {
        let mut ipc_message: Vec<u8> = Vec::new();
        append_bytes(&mut ipc_message, self.ipc_message.as_slice());
        let mut arrow_data: Vec<u8> = Vec::new();
        append_bytes(&mut arrow_data, self.arrow_data.as_slice());
        EncodedData { ipc_message, arrow_data }
    }
}

/// Whether two byte slices hold the same bytes.
pub fn bytes_equal(a: &[u8], b: &[u8]) -> (r: bool)
    ensures
        r == (a@ == b@),
{
    if a.len() != b.len() {
        return false;
    }
    let mut i: usize = 0;
    while i < a.len()
        invariant
            0 <= i <= a@.len(),
            a@.len() == b@.len(),
            forall|j: int| 0 <= j < i ==> a@[j] == b@[j],
        decreases a@.len() - i,
    {
        if a[i] != b[i] {
            return false;
        }
        i = i + 1;
    }
    assert(a@ =~= b@);
    true
}

/// Whether two messages hold the same header and body.
pub fn same_data(a: &EncodedData, b: &EncodedData) -> (r: bool)
    ensures
        r == (a@ == b@),
{
    bytes_equal(a.ipc_message.as_slice(), b.ipc_message.as_slice()) && bytes_equal(
        a.arrow_data.as_slice(),
        b.arrow_data.as_slice(),
    )
}

/// Appends a footer, its length as four little-endian bytes and the magic
/// marker, which lets a reader find the footer from the end of the file.
pub fn write_trailer(out: &mut Vec<u8>, footer: &[u8])
    requires
        footer@.len() <= MAX_I32,
    ensures
        final(out)@ == old(out)@ + trailer(footer@),
{
    append_bytes(out, footer);
    let len = le_bytes(footer.len() as u32);
    append_bytes(out, &len);
    append_bytes(out, ARROW_MAGIC.as_slice());
    proof {
        assert(ARROW_MAGIC@ =~= magic());
        assert(final(out)@ =~= old(out)@ + trailer(footer@));
    }
}

/// Whether a message with this header and body can be framed with an `i32`
/// metadata length.
pub open spec fn frameable(header: Seq<u8>, body: Seq<u8>) -> bool {
    meta_len(header) <= MAX_I32 && body_len(body) <= MAX_I64
}

/// The metadata length of a message with this header, where it fits an `i32`.
pub fn checked_meta_len(header: &[u8]) -> (r: Option<u64>)
    ensures
        r is None <==> meta_len(header@) > MAX_I32,
        r matches Some(n) ==> n == meta_len(header@),
{
    let hlen = header.len() as u64;
    if hlen > MAX_I32 as u64 {
        return None;
    }
    let n: u64 = hlen + 8 + (8 - (hlen + 8) % 8) % 8;
    if n > MAX_I32 as u64 {
        None
    } else {
        Some(n)
    }
}

/// The padded length of a message body, where it fits an `i64`.
pub fn checked_body_len(body: &[u8]) -> (r: Option<u64>)
    ensures
        r is None <==> body_len(body@) > MAX_I64,
        r matches Some(n) ==> n == body_len(body@),
{
    let blen = body.len() as u64;
    if blen > MAX_I64 {
        return None;
    }
    let n: u64 = blen + (8 - blen % 8) % 8;
    if n > MAX_I64 {
        None
    } else {
        Some(n)
    }
}

/// Writes one framed message and returns its metadata and body lengths.
pub fn write_message(out: &mut Vec<u8>, header: &[u8], body: &[u8]) -> (r: (u64, u64))
    requires
        frameable(header@, body@),
    ensures
        final(out)@ == old(out)@ + frame(header@, body@),
        r.0 == meta_len(header@),
        r.1 == body_len(body@),
        r.0 + r.1 == frame(header@, body@).len(),
{
    let hlen = header.len() as u64;
    let meta_pad: u64 = (8 - (hlen + 8) % 8) % 8;
    let aligned: u64 = hlen + 8 + meta_pad;
    let blen = body.len() as u64;
    let body_pad: u64 = (8 - blen % 8) % 8;
    write_continuation(out, (aligned - 8) as u32);
    append_bytes(out, header);
    append_zeros(out, meta_pad as usize);
    append_bytes(out, body);
    append_zeros(out, body_pad as usize);
    proof {
        lemma_frame_len(header@, body@);
        assert(final(out)@ =~= old(out)@ + frame(header@, body@));
    }
    (aligned, blen + body_pad)
}

} // verus!
