//! A BMP encoder for 1-bit images: headers, palette, and bottom-up pixel rows.
use vstd::prelude::*;
use crate::le::{extend_bytes, i32_le_bytes, le_u16, le_u32, u16_le_bytes, u32_le_bytes};

verus! {

#[verifier::external_type_specification]
#[verifier::external_body]
pub struct ExIoError(std::io::Error);

/// Bytes of the `BM` magic.
pub const HEADER_LEN: u32 = 2;
/// Bytes of the file header: file size, two creator fields, pixel offset.
pub const BMP_HEADER_LEN: u32 = 12;
/// Bytes of the BITMAPINFOHEADER.
pub const DIB_HEADER_LEN: u32 = 40;
/// Bytes of the two-entry palette of a 1-bit image.
pub const COLOR_PALETTE_SIZE: u32 = 8;
/// Offset of the pixel data in the file.
pub const HEADER_SIZE: u32 = HEADER_LEN + BMP_HEADER_LEN + DIB_HEADER_LEN + COLOR_PALETTE_SIZE;

// ---------------------------------------------------------------------------
// The file layout, over plain values.
// ---------------------------------------------------------------------------

/// Bytes needed for `bits` bits, rounding up to whole bytes.
pub open spec fn bytes_for_bits(bits: nat) -> nat {
    (bits + 7) / 8
}

/// Zero bytes that pad a row of `row_bytes` bytes to a multiple of four.
pub open spec fn row_padding(row_bytes: nat) -> nat {
    ((4 - (row_bytes % 4) as int) % 4) as nat
}

/// Bytes that one stored row takes, padding included.
pub open spec fn row_stride(width: nat, bits_per_pixel: nat) -> nat {
    let b = bytes_for_bits(width * bits_per_pixel);
    b + row_padding(b)
}

/// The image-size field of the info header: rows of `bpp * width` bits, rounded up to
/// whole 32-bit words.
pub open spec fn dib_data_size(bits_per_pixel: nat, width: nat, height: nat) -> nat {
    height * (((bits_per_pixel * width + 31) / 32) * 4)
}

/// Number of palette entries the info header announces.
pub open spec fn palette_entries(bits_per_pixel: nat) -> u32 {
    if bits_per_pixel == 1 { 2 } else { 0 }
}

/// `n` zero bytes.
pub open spec fn zeros(n: nat) -> Seq<u8> {
    Seq::new(n, |i: int| 0u8)
}

/// The `BM` magic.
pub open spec fn magic_bytes() -> Seq<u8> {
    seq![66u8, 77u8]
}

/// The file header of a file of `file_size` bytes whose pixels start at `pixel_offset`.
pub open spec fn bmp_header_bytes(file_size: u32, pixel_offset: u32) -> Seq<u8> {
    le_u32(file_size) + le_u16(0) + le_u16(0) + le_u32(pixel_offset)
}

/// The 40-byte info header.
pub open spec fn dib_header_bytes(width: u32, height: u32, bits_per_pixel: u16, data_size: u32) -> Seq<u8> {
    let colors = palette_entries(bits_per_pixel as nat);
    le_u32(40) + le_u32(width) + le_u32(height) + le_u16(1) + le_u16(bits_per_pixel)
        + le_u32(0) + le_u32(data_size) + le_u32(1000) + le_u32(1000) + le_u32(colors)
        + le_u32(colors)
}

/// Black then white, each as blue, green, red, reserved.
pub open spec fn palette_bytes() -> Seq<u8> {
    seq![0u8, 0u8, 0u8, 0u8, 255u8, 255u8, 255u8, 0u8]
}

/// The first `rows` rows of `pixels` (`row_bytes` bytes each), written from the last to
/// the first, each followed by `pad` zero bytes.
pub open spec fn stored_rows(pixels: Seq<u8>, row_bytes: nat, pad: nat, rows: nat) -> Seq<u8>
    decreases rows,
{
    if rows == 0 {
        Seq::empty()
    } else {
        let y = (rows - 1) as nat;
        pixels.subrange((y * row_bytes) as int, (y * row_bytes + row_bytes) as int) + zeros(pad)
            + stored_rows(pixels, row_bytes, pad, y)
    }
}

/// The whole file for an image of the given size whose packed rows are `pixels`.
pub open spec fn bmp_file(width: u32, height: u32, bits_per_pixel: u16, pixels: Seq<u8>) -> Seq<u8> {
    let row_bytes = bytes_for_bits((width * bits_per_pixel) as nat);
    let data_len = row_stride(width as nat, bits_per_pixel as nat) * height;
    magic_bytes() + bmp_header_bytes((HEADER_SIZE + data_len) as u32, HEADER_SIZE)
        + dib_header_bytes(width, height, bits_per_pixel, dib_data_size(bits_per_pixel as nat, width as nat, height as nat) as u32)
        + palette_bytes()
        + stored_rows(pixels, row_bytes, row_padding(row_bytes), height as nat)
}

/// Whether an image of this size can be built without any of its size computations
/// overflowing 32 bits.
pub open spec fn image_size_fits(width: u32, height: u32, bits_per_pixel: u16) -> bool {
    &&& width * bits_per_pixel <= u32::MAX
    &&& HEADER_SIZE + row_stride(width as nat, bits_per_pixel as nat) * height <= u32::MAX
}

/// Whether the packed rows of an image of this size can be held: a row's bits are
/// counted in 32 bits and all rows fit in memory.
pub open spec fn data_size_fits(width: u32, height: u32, bits_per_pixel: u16) -> bool {
    &&& width * bits_per_pixel <= u32::MAX
    &&& bytes_for_bits((width * bits_per_pixel) as nat) * height <= usize::MAX
}

/// Whether an image of this size can be built (`image_size_fits`).
pub fn size_fits(width: u32, height: u32, bits_per_pixel: u16) -> (r: bool)
    ensures
        r == image_size_fits(width, height, bits_per_pixel),
{
    assert(width * bits_per_pixel <= 0xffff_ffff * 0xffff) by (nonlinear_arith)
        requires
            width <= 0xffff_ffff,
            bits_per_pixel <= 0xffff,
    ;
    let bits: u64 = width as u64 * bits_per_pixel as u64;
    if bits > 0xffff_ffff {
        return false;
    }
    proof {
        lemma_row_stride_words(bits as nat);
    }
    let stride: u64 = ((bits + 31) / 32) * 4;
    assert(stride * height <= 0x2000_0000 * 0xffff_ffff) by (nonlinear_arith)
        requires
            stride <= 0x2000_0000,
            height <= 0xffff_ffff,
    ;
    let total: u64 = HEADER_SIZE as u64 + stride * height as u64;
    total <= 0xffff_ffff
}

// ---------------------------------------------------------------------------
// Arithmetic facts.
// ---------------------------------------------------------------------------

/// A row padded to four bytes is the 32-bit-word-rounded row the info header counts.
pub proof fn lemma_row_stride_words(bits: nat)
    ensures
        bytes_for_bits(bits) + row_padding(bytes_for_bits(bits)) == ((bits + 31) / 32) * 4,
{
    let b = (bits + 7) / 8;
    assert(((bits + 7) / 8 + 3) / 4 == (bits + 31) / 32) by {
        vstd::arithmetic::div_mod::lemma_div_denominator((bits + 31) as int, 8, 4);
        assert((bits + 31) / 8 == (bits + 7) / 8 + 3) by {
            vstd::arithmetic::div_mod::lemma_hoist_over_denominator((bits + 7) as int, 3, 8);
        }
    }
    assert(b + row_padding(b) == ((b + 3) / 4) * 4) by {
        vstd::arithmetic::div_mod::lemma_fundamental_div_mod(b as int, 4);
        vstd::arithmetic::div_mod::lemma_fundamental_div_mod((b + 3) as int, 4);
    }
}


// ---------------------------------------------------------------------------
// Headers.
// ---------------------------------------------------------------------------

/// Something that serializes itself by appending bytes to a buffer.
pub trait WriteData: Sized {
    /// The bytes that `write_into` appends.
    spec fn encoding(&self) -> Seq<u8>;

    /// Whether the value's internal invariants hold, so that it can be written.
    spec fn writable(&self) -> bool;

    fn write_into(&self, writer: &mut Vec<u8>) -> (r: Result<(), std::io::Error>)
        requires
            self.writable(),
        ensures
            r is Ok,
            final(writer)@ == old(writer)@ + self.encoding(),
    ;
}

/// The `BM` magic at the start of a BMP file.
#[derive(Clone, Copy)]
pub struct Header {
    inner: [u8; 2],
}

impl Header {
    pub closed spec fn bytes(&self) -> Seq<u8> {
        self.inner@
    }
}

impl Default for Header {
    fn default() -> (r: Self)
        ensures
            r.bytes() == magic_bytes(),
    {
        let r = Header { inner: [66, 77] };
        assert(r.inner@ =~= magic_bytes());
        r
    }
}

impl WriteData for Header {
    open spec fn encoding(&self) -> Seq<u8> {
        self.bytes()
    }

    open spec fn writable(&self) -> bool {
        true
    }

    fn write_into(&self, writer: &mut Vec<u8>) -> (r: Result<(), std::io::Error>) {
        extend_bytes(writer, &self.inner);
        Ok(())
    }
}

/// The file header: total file size and the offset of the pixel data.
#[derive(Clone, Copy)]
pub struct BmpHeader {
    file_size: u32,
    creator_1: u16,
    creator_2: u16,
    pixel_offset: u32,
}

impl BmpHeader {
    pub closed spec fn file_size_spec(&self) -> u32 {
        self.file_size
    }

    pub closed spec fn bytes(&self) -> Seq<u8> {
        le_u32(self.file_size) + le_u16(self.creator_1) + le_u16(self.creator_2)
            + le_u32(self.pixel_offset)
    }

    /// The header of a file whose pixel data takes `data_size` bytes.
    pub fn new(data_size: u32) -> (r: Self)
        requires
            HEADER_SIZE + data_size <= u32::MAX,
        ensures
            r.file_size_spec() == HEADER_SIZE + data_size,
            r.bytes() == bmp_header_bytes((HEADER_SIZE + data_size) as u32, HEADER_SIZE),
    {
        BmpHeader { file_size: HEADER_SIZE + data_size, creator_1: 0, creator_2: 0, pixel_offset: HEADER_SIZE }
    }
}

impl WriteData for BmpHeader {
    open spec fn encoding(&self) -> Seq<u8> {
        self.bytes()
    }

    open spec fn writable(&self) -> bool {
        true
    }

    fn write_into(&self, writer: &mut Vec<u8>) -> (r: Result<(), std::io::Error>) {
        extend_bytes(writer, &u32_le_bytes(self.file_size));
        extend_bytes(writer, &u16_le_bytes(self.creator_1));
        extend_bytes(writer, &u16_le_bytes(self.creator_2));
        extend_bytes(writer, &u32_le_bytes(self.pixel_offset));
        assert(writer@ =~= old(writer)@ + self.bytes());
        Ok(())
    }
}

/// The size in bytes of the pixel data, as the info header records it.
#[derive(Clone, Copy)]
pub struct DataSize(u32);

impl DataSize {
    pub closed spec fn value(&self) -> u32 {
        self.0
    }

    /// Rows of `bitspp * width` bits, each rounded up to whole 32-bit words, times `height`.
    fn new(bitspp: u16, width: u32, height: u32) -> (r: DataSize)
        requires
            dib_data_size(bitspp as nat, width as nat, height as nat) <= u32::MAX,
        ensures
            r.value() == dib_data_size(bitspp as nat, width as nat, height as nat),
    {
        assert(bitspp as int * width as int <= 0xffff * 0xffff_ffff) by (nonlinear_arith)
            requires
                bitspp <= 0xffff,
                width <= 0xffff_ffff,
        ;
        let bits: u64 = bitspp as u64 * width as u64;
        let words: u64 = (bits + 31) / 32;
        let row_size: u64 = words * 4;
        let total: u64 = height as u64 * row_size;
        DataSize(total as u32)
    }
}

/// The 40-byte BITMAPINFOHEADER.
#[derive(Clone, Copy)]
pub struct BmpDibHeader {
    header_size: u32,
    width: u32,
    height: u32,
    num_planes: u16,
    bits_per_pixel: u16,
    compress_type: u32,
    data_size: DataSize,
    hres: i32,
    vres: i32,
    num_colors: u32,
    num_imp_colors: u32,
}

impl BmpDibHeader {
    pub closed spec fn bytes(&self) -> Seq<u8> {
        le_u32(self.header_size) + le_u32(self.width) + le_u32(self.height) + le_u16(self.num_planes)
            + le_u16(self.bits_per_pixel) + le_u32(self.compress_type) + le_u32(self.data_size.0)
            + le_u32(self.hres as u32) + le_u32(self.vres as u32) + le_u32(self.num_colors)
            + le_u32(self.num_imp_colors)
    }

    pub closed spec fn data_size_spec(&self) -> u32 {
        self.data_size.0
    }

    /// The info header of an uncompressed `width` x `height` image.
    pub fn new(bits_per_pixel: u16, width: u32, height: u32) -> (r: Self)
        requires
            dib_data_size(bits_per_pixel as nat, width as nat, height as nat) <= u32::MAX,
        ensures
            r.data_size_spec() == dib_data_size(bits_per_pixel as nat, width as nat, height as nat),
            r.bytes() == dib_header_bytes(width, height, bits_per_pixel, r.data_size_spec()),
    {
        let data = DataSize::new(bits_per_pixel, width, height);
        let num_colors: u32 = if bits_per_pixel == 1 { 2 } else { 0 };
        BmpDibHeader {
            header_size: 40,
            width,
            height,
            num_planes: 1,
            bits_per_pixel,
            compress_type: 0,
            data_size: data,
            hres: 1000,
            vres: 1000,
            num_colors,
            num_imp_colors: num_colors,
        }
    }
}

impl WriteData for BmpDibHeader {
    open spec fn encoding(&self) -> Seq<u8> {
        self.bytes()
    }

    open spec fn writable(&self) -> bool {
        true
    }

    fn write_into(&self, writer: &mut Vec<u8>) -> (r: Result<(), std::io::Error>) {
        extend_bytes(writer, &u32_le_bytes(self.header_size));
        extend_bytes(writer, &u32_le_bytes(self.width));
        extend_bytes(writer, &u32_le_bytes(self.height));
        extend_bytes(writer, &u16_le_bytes(self.num_planes));
        extend_bytes(writer, &u16_le_bytes(self.bits_per_pixel));
        extend_bytes(writer, &u32_le_bytes(self.compress_type));
        extend_bytes(writer, &u32_le_bytes(self.data_size.0));
        extend_bytes(writer, &i32_le_bytes(self.hres));
        extend_bytes(writer, &i32_le_bytes(self.vres));
        extend_bytes(writer, &u32_le_bytes(self.num_colors));
        extend_bytes(writer, &u32_le_bytes(self.num_imp_colors));
        assert(writer@ =~= old(writer)@ + self.bytes());
        Ok(())
    }
}

/// The palette of a 1-bit image: black, then white, each as blue, green, red, reserved.
#[derive(Clone, Copy)]
pub struct ColorPalette {
    colors: [u8; 8],
}

impl ColorPalette {
    pub closed spec fn bytes(&self) -> Seq<u8> {
        self.colors@
    }
}

impl Default for ColorPalette {
    fn default() -> (r: Self)
        ensures
            r.bytes() == palette_bytes(),
    {
        let r = ColorPalette { colors: [0, 0, 0, 0, 255, 255, 255, 0] };
        assert(r.colors@ =~= palette_bytes());
        r
    }
}

impl WriteData for ColorPalette {
    open spec fn encoding(&self) -> Seq<u8> {
        self.bytes()
    }

    open spec fn writable(&self) -> bool {
        true
    }

    fn write_into(&self, writer: &mut Vec<u8>) -> (r: Result<(), std::io::Error>) {
        extend_bytes(writer, &self.colors);
        Ok(())
    }
}


// ---------------------------------------------------------------------------
// Pixels.
// ---------------------------------------------------------------------------

/// A pixel format: how many bits a pixel takes and how one is stored into packed rows.
pub trait Pixel {
    type Data;

    const BITS_PER_PIXEL: u16;

    /// The buffer after storing `val` as pixel number `idx`, or `None` where the pixel
    /// falls outside the buffer.
    spec fn stored(buf: Seq<u8>, idx: usize, val: Self::Data) -> Option<Seq<u8>>;

    fn index_mut(buf: &mut [u8], idx: usize, val: Self::Data) -> (r: Option<()>)
        ensures
            final(buf)@.len() == old(buf)@.len(),
            match Self::stored(old(buf)@, idx, val) {
                Some(b) => r is Some && final(buf)@ == b,
                None => r is None && final(buf)@ == old(buf)@,
            },
    ;
}

/// One bit per pixel, the most significant bit of a byte first.
#[derive(Clone)]
pub struct U1;

/// A value split into its quotient and remainder by eight.
pub struct DivAndMod {
    pub dividend: u32,
    pub modulus: u32,
}

impl DivAndMod {
    pub fn new(v: u32) -> (r: Self)
        ensures
            r.dividend == v / 8,
            r.modulus == v % 8,
    {
        let byte_idx = v / 8;
        let bit_idx = v % 8;
        DivAndMod { dividend: byte_idx, modulus: bit_idx }
    }
}

/// The mask of bit `bit` of a byte, counting from the most significant bit.
pub open spec fn bit_mask(bit: u32) -> u8 {
    (128u8 >> bit) as u8
}

/// `b` with bit `bit` (from the most significant end) set to `on`.
pub open spec fn with_bit(b: u8, bit: u32, on: bool) -> u8 {
    if on {
        b | bit_mask(bit)
    } else {
        b & !bit_mask(bit)
    }
}

/// Whether bit `bit` (from the most significant end) of `b` is set.
pub open spec fn bit_of(b: u8, bit: u32) -> bool {
    b & bit_mask(bit) != 0
}

/// Whether pixel `idx` of a packed 1-bit buffer is set.
pub open spec fn pixel_of(buf: Seq<u8>, idx: nat) -> bool {
    bit_of(buf[(idx / 8) as int], (idx % 8) as u32)
}

/// The 1-bit buffer after storing `val` at pixel `idx` (taken modulo 2^32, as the pixel
/// index is a 32-bit value), or `None` where that byte lies past the end.
pub open spec fn u1_stored(buf: Seq<u8>, idx: usize, val: bool) -> Option<Seq<u8>> {
    let i = idx as u32;
    if ((i / 8) as int) < buf.len() {
        Some(buf.update((i / 8) as int, with_bit(buf[(i / 8) as int], i % 8, val)))
    } else {
        None
    }
}

/// Setting a bit gives it the new value and leaves every other bit of the byte alone.
pub proof fn lemma_with_bit(b: u8, bit: u32, on: bool, other: u32)
    requires
        bit < 8,
        other < 8,
    ensures
        bit_of(with_bit(b, bit, on), bit) == on,
        other != bit ==> bit_of(with_bit(b, bit, on), other) == bit_of(b, other),
{
    assert(bit < 8 ==> (b | (128u8 >> bit)) & (128u8 >> bit) != 0) by (bit_vector);
    assert(bit < 8 ==> (b & !(128u8 >> bit)) & (128u8 >> bit) == 0) by (bit_vector);
    assert(bit < 8 && other < 8 && other != bit ==> ((b | (128u8 >> bit)) & (128u8 >> other) != 0)
        == (b & (128u8 >> other) != 0)) by (bit_vector);
    assert(bit < 8 && other < 8 && other != bit ==> ((b & !(128u8 >> bit)) & (128u8 >> other) != 0)
        == (b & (128u8 >> other) != 0)) by (bit_vector);
}

impl Pixel for U1 {
    type Data = bool;

    const BITS_PER_PIXEL: u16 = 1;

    open spec fn stored(buf: Seq<u8>, idx: usize, val: bool) -> Option<Seq<u8>> {
        u1_stored(buf, idx, val)
    }

    fn index_mut(buf: &mut [u8], idx: usize, val: bool) -> (r: Option<()>) {
        let DivAndMod { dividend: byte_idx, modulus: bit_idx } = DivAndMod::new(idx as u32);
        if byte_idx as usize >= buf.len() {
            return None;
        }
        let b = byte_idx as usize;
        if val {
            let mask: u8 = 1u8 << 7u8 >> bit_idx;
            assert(mask == bit_mask(bit_idx)) by (bit_vector)
                requires
                    mask == 1u8 << 7u8 >> bit_idx,
                    bit_idx < 8,
            ;
            buf[b] = buf[b] | mask;
        } else {
            let mask: u8 = !(1u8 << 7u8 >> bit_idx);
            assert(mask == !bit_mask(bit_idx)) by (bit_vector)
                requires
                    mask == !(1u8 << 7u8 >> bit_idx),
                    bit_idx < 8,
            ;
            buf[b] = buf[b] & mask;
        }
        Some(())
    }
}

/// A 1-bit pixel takes one bit.
pub proof fn lemma_u1_bits_per_pixel()
    ensures
        U1::BITS_PER_PIXEL == 1,
{
}

/// Writing pixel `idx` of a 1-bit buffer gives it the written value and leaves every
/// other pixel unchanged.
pub proof fn lemma_u1_read_after_write(buf: Seq<u8>, idx: usize, val: bool, other: nat)
    requires
        idx <= u32::MAX,
        idx / 8 < buf.len(),
        other / 8 < buf.len(),
    ensures
        u1_stored(buf, idx, val) matches Some(after) && {
            &&& after.len() == buf.len()
            &&& pixel_of(after, idx as nat) == val
            &&& other != idx ==> pixel_of(after, other) == pixel_of(buf, other)
        },
{
    let after = u1_stored(buf, idx, val).unwrap();
    lemma_with_bit(buf[(idx / 8) as int], (idx % 8) as u32, val, (other % 8) as u32);
    if other != idx && other / 8 == idx / 8 {
        assert(other % 8 != idx % 8);
    }
}


// ---------------------------------------------------------------------------
// Pixel data.
// ---------------------------------------------------------------------------

/// The packed rows of an image, top row first, without padding.
pub struct ImageData<P> {
    width: u32,
    height: u32,
    data: Vec<u8>,
    phantom: core::marker::PhantomData<P>,
    padding_size: u32,
    bytes_per_row: u32,
}

impl<P> ImageData<P> {
    /// Whether two values hold the same size and pixels.
    pub closed spec fn same_content(&self, other: &Self) -> bool {
        &&& self.width == other.width
        &&& self.height == other.height
        &&& self.data@ == other.data@
        &&& self.padding_size == other.padding_size
        &&& self.bytes_per_row == other.bytes_per_row
    }
}

impl<P> Clone for ImageData<P> {
    fn clone(&self) -> (r: Self)
        ensures
            r.same_content(self),
    {
        ImageData {
            width: self.width,
            height: self.height,
            data: self.data.clone(),
            phantom: core::marker::PhantomData,
            padding_size: self.padding_size,
            bytes_per_row: self.bytes_per_row,
        }
    }
}

impl<P: Pixel> ImageData<P> {
    pub closed spec fn wf(&self) -> bool {
        &&& data_size_fits(self.width, self.height, P::BITS_PER_PIXEL)
        &&& self.bytes_per_row == bytes_for_bits((self.width * P::BITS_PER_PIXEL) as nat)
        &&& self.padding_size == row_padding(self.bytes_per_row as nat)
        &&& self.data@.len() == self.bytes_per_row * self.height
    }

    pub closed spec fn width_spec(&self) -> u32 {
        self.width
    }

    pub closed spec fn height_spec(&self) -> u32 {
        self.height
    }

    pub closed spec fn pixels(&self) -> Seq<u8> {
        self.data@
    }

    pub closed spec fn row_bytes(&self) -> u32 {
        self.bytes_per_row
    }

    pub closed spec fn padding(&self) -> u32 {
        self.padding_size
    }

    /// A blank (all zero) image of the given size: rows of `ceil(width * bpp / 8)` bytes,
    /// each to be padded by `0` to `3` bytes to a multiple of four.
    pub fn new(width: u32, height: u32) -> (r: Self)
        requires
            data_size_fits(width, height, P::BITS_PER_PIXEL),
        ensures
            r.wf(),
            r.width_spec() == width,
            r.height_spec() == height,
            r.row_bytes() == bytes_for_bits((width * P::BITS_PER_PIXEL) as nat),
            r.padding() == row_padding(r.row_bytes() as nat),
            r.padding() < 4,
            (r.row_bytes() + r.padding()) % 4 == 0,
            r.pixels() == zeros(bytes_for_bits((width * P::BITS_PER_PIXEL) as nat) * height as nat),
    {
        let DivAndMod { dividend: mut bytes_per_row, modulus } = DivAndMod::new(width * P::BITS_PER_PIXEL as u32);
        if modulus > 0 {
            bytes_per_row += 1;
        }
        assert(bytes_per_row == bytes_for_bits((width * P::BITS_PER_PIXEL) as nat));
        let capacity: usize = bytes_per_row as usize * height as usize;
        let mut data: Vec<u8> = Vec::with_capacity(capacity);
        let mut i: usize = 0;
        while i < capacity
            invariant
                i <= capacity,
                data@ == zeros(i as nat),
            decreases capacity - i,
        {
            data.push(0u8);
            i = i + 1;
            assert(data@ =~= zeros(i as nat));
        }
        let padding_size = (4 - (bytes_per_row % 4)) % 4;
        ImageData {
            width,
            height,
            data,
            phantom: core::marker::PhantomData,
            padding_size,
            bytes_per_row,
        }
    }

    /// Bytes the stored rows take, padding included.
    pub fn final_size(&self) -> (r: u32)
        requires
            self.wf(),
            row_stride(self.width_spec() as nat, P::BITS_PER_PIXEL as nat) * self.height_spec() <= u32::MAX,
        ensures
            r == row_stride(self.width_spec() as nat, P::BITS_PER_PIXEL as nat) * self.height_spec(),
    {
        assert(self.bytes_per_row <= 0x2000_0000);
        (self.bytes_per_row + self.padding_size) * self.height
    }
}

/// The size bounds that follow from `image_size_fits`.
proof fn lemma_stride_bounds(width: u32, height: u32, bits_per_pixel: u16)
    requires
        image_size_fits(width, height, bits_per_pixel),
    ensures
        bytes_for_bits((width * bits_per_pixel) as nat) * height <= row_stride(width as nat, bits_per_pixel as nat) * height,
        row_stride(width as nat, bits_per_pixel as nat) * height <= u32::MAX - HEADER_SIZE,
        row_stride(width as nat, bits_per_pixel as nat) == bytes_for_bits((width * bits_per_pixel) as nat)
            + row_padding(bytes_for_bits((width * bits_per_pixel) as nat)),
        dib_data_size(bits_per_pixel as nat, width as nat, height as nat)
            == row_stride(width as nat, bits_per_pixel as nat) * height,
{
    let b = bytes_for_bits((width * bits_per_pixel) as nat);
    let s = row_stride(width as nat, bits_per_pixel as nat);
    assert(b * height <= s * height) by (nonlinear_arith)
        requires
            b <= s,
    ;
    lemma_row_stride_words((width * bits_per_pixel) as nat);
    assert(bits_per_pixel as nat * width as nat == (width * bits_per_pixel) as nat) by (nonlinear_arith);
}

impl<P: Pixel> WriteData for ImageData<P> {
    closed spec fn encoding(&self) -> Seq<u8> {
        stored_rows(self.data@, self.bytes_per_row as nat, self.padding_size as nat, self.height as nat)
    }

    closed spec fn writable(&self) -> bool {
        self.wf()
    }

    /// Rows are written from the bottom one up, each padded to four bytes.
    fn write_into(&self, writer: &mut Vec<u8>) -> (r: Result<(), std::io::Error>) {
        let ghost all = stored_rows(self.data@, self.bytes_per_row as nat, self.padding_size as nat, self.height as nat);
        let mut y: u32 = self.height;
        assert(old(writer)@ + all =~= writer@ + stored_rows(self.data@, self.bytes_per_row as nat, self.padding_size as nat, y as nat));
        while y > 0
            invariant
                y <= self.height,
                self.wf(),
                old(writer)@ + all == writer@ + stored_rows(self.data@, self.bytes_per_row as nat, self.padding_size as nat, y as nat),
            decreases y,
        {
            y = y - 1;
            let len = self.data.len();
            proof {
                lemma_row_in_bounds(y as nat, self.height as nat, self.bytes_per_row as nat);
                assert(y * self.bytes_per_row + self.bytes_per_row <= len);
            }
            let start: usize = y as usize * self.bytes_per_row as usize;
            let end: usize = start + self.bytes_per_row as usize;
            let ghost before = writer@;
            extend_bytes(writer, vstd::slice::slice_subrange(self.data.as_slice(), start, end));
            let mut k: u32 = 0;
            while k < self.padding_size
                invariant
                    k <= self.padding_size,
                    writer@ == before + self.data@.subrange(start as int, end as int) + zeros(k as nat),
                decreases self.padding_size - k,
            {
                writer.push(0u8);
                k = k + 1;
                assert(writer@ =~= before + self.data@.subrange(start as int, end as int) + zeros(k as nat));
            }
            let ghost rest = stored_rows(self.data@, self.bytes_per_row as nat, self.padding_size as nat, y as nat);
            assert(before + self.data@.subrange(start as int, end as int) + zeros(self.padding_size as nat) + rest
                =~= before + (self.data@.subrange(start as int, end as int) + zeros(self.padding_size as nat) + rest));
        }
        assert(writer@ =~= old(writer)@ + all);
        Ok(())
    }
}

/// Row `y` of a `rows`-row image lies inside its packed data.
proof fn lemma_row_in_bounds(y: nat, rows: nat, row_bytes: nat)
    requires
        y < rows,
    ensures
        y * row_bytes + row_bytes <= rows * row_bytes,
{
    assert(y * row_bytes + row_bytes <= rows * row_bytes) by (nonlinear_arith)
        requires
            y < rows,
    ;
}


// ---------------------------------------------------------------------------
// Images.
// ---------------------------------------------------------------------------

/// A position on the image: `x` counts columns from the left, `y` rows from the top.
#[derive(Debug, Clone, Copy)]
pub struct Coord {
    pub x: u32,
    pub y: u32,
}

/// What an image holds: its size and its packed rows, top row first.
pub struct ImageView {
    pub width: u32,
    pub height: u32,
    pub pixels: Seq<u8>,
}

/// A BMP image whose pixels are of format `P`.
pub struct Image<P> {
    header: Header,
    bmp_header: BmpHeader,
    dib_header: BmpDibHeader,
    color_palette: ColorPalette,
    data: ImageData<P>,
}

impl<P> View for Image<P> {
    type V = ImageView;

    closed spec fn view(&self) -> ImageView {
        ImageView { width: self.data.width, height: self.data.height, pixels: self.data.data@ }
    }
}

impl<P> Clone for Image<P> {
    fn clone(&self) -> (r: Self)
        ensures
            r.same_content(self),
    {
        Image {
            header: self.header,
            bmp_header: self.bmp_header,
            dib_header: self.dib_header,
            color_palette: self.color_palette,
            data: self.data.clone(),
        }
    }
}

impl<P> Image<P> {
    /// Whether two images hold the same headers, size and pixels.
    pub closed spec fn same_content(&self, other: &Self) -> bool {
        &&& self.header.inner@ == other.header.inner@
        &&& self.bmp_header == other.bmp_header
        &&& self.dib_header == other.dib_header
        &&& self.color_palette.colors@ == other.color_palette.colors@
        &&& self.data.same_content(&other.data)
    }
}

/// The packed rows of an image after storing each `(coord, value)` of `pixels` in turn,
/// pixel `(x, y)` being number `y * width + x`.
pub open spec fn drawn<P: Pixel<Data = bool>>(pixels_before: Seq<u8>, width: u32, pixels: Seq<(Coord, bool)>) -> Seq<u8>
    decreases pixels.len(),
{
    if pixels.len() == 0 {
        pixels_before
    } else {
        let prev = drawn::<P>(pixels_before, width, pixels.drop_last());
        let (c, v) = pixels.last();
        match P::stored(prev, (c.y * width + c.x) as usize, v) {
            Some(b) => b,
            None => prev,
        }
    }
}

/// Whether every pixel's number `y * width + x` fits in 32 bits.
pub open spec fn indices_fit(width: u32, pixels: Seq<(Coord, bool)>) -> bool {
    forall|i: int| 0 <= i < pixels.len() ==> #[trigger] pixels[i].0.y * width + pixels[i].0.x <= u32::MAX
}

impl<P: Pixel> Image<P> {
    pub closed spec fn wf(&self) -> bool {
        let w = self.data.width;
        let h = self.data.height;
        let bpp = P::BITS_PER_PIXEL;
        &&& self.data.wf()
        &&& image_size_fits(w, h, bpp)
        &&& self.header.bytes() == magic_bytes()
        &&& self.bmp_header.file_size == HEADER_SIZE + row_stride(w as nat, bpp as nat) * h
        &&& self.bmp_header.bytes() == bmp_header_bytes(self.bmp_header.file_size, HEADER_SIZE)
        &&& self.dib_header.bytes() == dib_header_bytes(w, h, bpp, dib_data_size(bpp as nat, w as nat, h as nat) as u32)
        &&& self.color_palette.bytes() == palette_bytes()
    }

    /// A blank (all zero) image of `width` x `height` pixels.
    pub fn new(width: u32, height: u32) -> (r: Self)
        requires
            image_size_fits(width, height, P::BITS_PER_PIXEL),
        ensures
            r.wf(),
            r@.width == width,
            r@.height == height,
            r@.pixels == zeros(bytes_for_bits((width * P::BITS_PER_PIXEL) as nat) * height as nat),
    {
        proof {
            lemma_stride_bounds(width, height, P::BITS_PER_PIXEL);
        }
        let data = ImageData::<P>::new(width, height);
        let size = data.final_size();
        Image {
            header: Header::default(),
            bmp_header: BmpHeader::new(size),
            dib_header: BmpDibHeader::new(P::BITS_PER_PIXEL, width, height),
            color_palette: ColorPalette::default(),
            data,
        }
    }

    /// Width and height in pixels.
    pub fn dimensions(&self) -> (r: (u32, u32))
        ensures
            r == (self@.width, self@.height),
    {
        (self.data.width, self.data.height)
    }

    /// The whole BMP file.
    pub fn image_bytes(&self) -> (r: Result<Vec<u8>, std::io::Error>)
        requires
            self.wf(),
        ensures
            r matches Ok(bytes) && bytes@ == bmp_file(self@.width, self@.height, P::BITS_PER_PIXEL, self@.pixels),
    {
        let s = self.bmp_header.file_size;
        let mut out: Vec<u8> = Vec::with_capacity(s as usize);
        match self.write_into(&mut out) {
            Ok(()) => {},
            Err(e) => return Err(e),
        }
        proof {
            self.lemma_encoding_is_file();
        }
        Ok(out)
    }

    /// The bytes `write_into` appends are the file of this size and these pixels.
    proof fn lemma_encoding_is_file(&self)
        requires
            self.wf(),
        ensures
            self.encoding() == bmp_file(self@.width, self@.height, P::BITS_PER_PIXEL, self@.pixels),
    {
        lemma_stride_bounds(self.data.width, self.data.height, P::BITS_PER_PIXEL);
        assert(self.encoding() =~= bmp_file(self@.width, self@.height, P::BITS_PER_PIXEL, self@.pixels));
    }
}

impl<P: Pixel<Data = bool>> Image<P> {
    /// Stores each `(coord, value)` in turn as the pixel `coord.y * width + coord.x`;
    /// a pixel that falls past the end of the data is skipped.
    pub fn draw_pixels(&mut self, pixels: Vec<(Coord, bool)>)
        requires
            old(self).wf(),
            indices_fit(old(self)@.width, pixels@),
        ensures
            final(self).wf(),
            final(self)@.width == old(self)@.width,
            final(self)@.height == old(self)@.height,
            final(self)@.pixels == drawn::<P>(old(self)@.pixels, old(self)@.width, pixels@),
    {
        let width = self.data.width;
        let mut i: usize = 0;
        while i < pixels.len()
            invariant
                i <= pixels@.len(),
                width == old(self)@.width,
                indices_fit(width, pixels@),
                self.wf(),
                self@.width == old(self)@.width,
                self@.height == old(self)@.height,
                self@.pixels == drawn::<P>(old(self)@.pixels, width, pixels@.take(i as int)),
            decreases pixels@.len() - i,
        {
            let (c, v) = pixels[i];
            assert(pixels@[i as int].0.y * width + pixels@[i as int].0.x <= u32::MAX);
            let idx = c.y * width + c.x;
            let _ = P::index_mut(self.data.data.as_mut_slice(), idx as usize, v);
            assert(pixels@.take(i + 1).drop_last() =~= pixels@.take(i as int));
            i = i + 1;
        }
        assert(pixels@.take(pixels@.len() as int) =~= pixels@);
    }
}

impl<P: Pixel> WriteData for Image<P> {
    closed spec fn encoding(&self) -> Seq<u8> {
        self.header.encoding() + self.bmp_header.encoding() + self.dib_header.encoding()
            + self.color_palette.encoding() + self.data.encoding()
    }

    closed spec fn writable(&self) -> bool {
        self.wf()
    }

    fn write_into(&self, writer: &mut Vec<u8>) -> (r: Result<(), std::io::Error>) {
        let ghost w0 = writer@;
        match self.header.write_into(writer) {
            Ok(()) => {},
            Err(e) => return Err(e),
        }
        match self.bmp_header.write_into(writer) {
            Ok(()) => {},
            Err(e) => return Err(e),
        }
        match self.dib_header.write_into(writer) {
            Ok(()) => {},
            Err(e) => return Err(e),
        }
        match self.color_palette.write_into(writer) {
            Ok(()) => {},
            Err(e) => return Err(e),
        }
        let r = self.data.write_into(writer);
        assert(writer@ =~= w0 + self.encoding());
        r
    }
}


// ---------------------------------------------------------------------------
// Laws of the file layout.
// ---------------------------------------------------------------------------

/// Stored rows take `rows` strides of `row_bytes + pad` bytes.
pub proof fn lemma_stored_rows_len(pixels: Seq<u8>, row_bytes: nat, pad: nat, rows: nat)
    requires
        pixels.len() >= row_bytes * rows,
    ensures
        stored_rows(pixels, row_bytes, pad, rows).len() == (row_bytes + pad) * rows,
    decreases rows,
{
    if rows == 0 {
        assert((row_bytes + pad) * rows == 0) by (nonlinear_arith)
            requires
                rows == 0,
        ;
    } else {
        let y = (rows - 1) as nat;
        assert(row_bytes * y + row_bytes == row_bytes * rows) by (nonlinear_arith)
            requires
                y + 1 == rows,
        ;
        assert(y * row_bytes == row_bytes * y) by (nonlinear_arith);
        assert(row_bytes * y <= row_bytes * rows) by (nonlinear_arith)
            requires
                y + 1 == rows,
        ;
        lemma_stored_rows_len(pixels, row_bytes, pad, y);
        let row = pixels.subrange((y * row_bytes) as int, (y * row_bytes + row_bytes) as int);
        assert(row.len() == row_bytes);
        assert((row_bytes + pad) * y + (row_bytes + pad) == (row_bytes + pad) * rows) by (nonlinear_arith)
            requires
                y + 1 == rows,
        ;
    }
}

/// Rows are stored bottom-up: byte `j` of row `y` lands at stride `rows - 1 - y`, and the
/// bytes that pad a row are zero.
pub proof fn lemma_stored_rows_position(pixels: Seq<u8>, row_bytes: nat, pad: nat, rows: nat, y: nat, j: nat)
    requires
        pixels.len() >= row_bytes * rows,
        y < rows,
        j < row_bytes + pad,
    ensures
        stored_rows(pixels, row_bytes, pad, rows)[((rows - 1 - y) * (row_bytes + pad) + j) as int]
            == if j < row_bytes { pixels[(y * row_bytes + j) as int] } else { 0u8 },
    decreases rows,
{
    let top = (rows - 1) as nat;
    let row = pixels.subrange((top * row_bytes) as int, (top * row_bytes + row_bytes) as int);
    assert(top * row_bytes + row_bytes <= pixels.len()) by (nonlinear_arith)
        requires
            top + 1 == rows,
            pixels.len() >= row_bytes * rows,
    ;
    let rest = stored_rows(pixels, row_bytes, pad, top);
    let whole = stored_rows(pixels, row_bytes, pad, rows);
    assert(whole == row + zeros(pad) + rest);
    if y == top {
        assert((rows - 1 - y) * (row_bytes + pad) + j == j) by (nonlinear_arith)
            requires
                y + 1 == rows,
        ;
    } else {
        assert(pixels.len() >= row_bytes * top) by (nonlinear_arith)
            requires
                top + 1 == rows,
                pixels.len() >= row_bytes * rows,
        ;
        lemma_stored_rows_position(pixels, row_bytes, pad, top, y, j);
        assert((rows - 1 - y) * (row_bytes + pad) + j == (row_bytes + pad) + ((top - 1 - y) * (row_bytes + pad) + j))
            by (nonlinear_arith)
            requires
                top + 1 == rows,
                y < top,
        ;
        lemma_stored_rows_len(pixels, row_bytes, pad, top);
        assert(((top - 1 - y) * (row_bytes + pad) + j) < (row_bytes + pad) * top) by (nonlinear_arith)
            requires
                y < top,
                j < row_bytes + pad,
        ;
    }
}

/// The layout of a BMP file: its length is the header size plus the stored rows; the
/// file-size field holds that length, the pixel-offset field holds `HEADER_SIZE`, the
/// info header's image-size field holds the length of the stored rows, and byte `j` of
/// pixel row `y` sits at `HEADER_SIZE + (height - 1 - y) * stride + j`, with zero
/// padding after each row.
pub proof fn lemma_bmp_file_layout(width: u32, height: u32, bits_per_pixel: u16, pixels: Seq<u8>)
    requires
        image_size_fits(width, height, bits_per_pixel),
        pixels.len() == bytes_for_bits((width * bits_per_pixel) as nat) * height,
    ensures
        ({
            let file = bmp_file(width, height, bits_per_pixel, pixels);
            let stride = row_stride(width as nat, bits_per_pixel as nat);
            let row_bytes = bytes_for_bits((width * bits_per_pixel) as nat);
            &&& file.len() == HEADER_SIZE + stride * height
            &&& file.subrange(0, 2) == magic_bytes()
            &&& file.subrange(2, 6) == le_u32(file.len() as u32)
            &&& file.subrange(10, 14) == le_u32(HEADER_SIZE)
            &&& file.subrange(18, 22) == le_u32(width)
            &&& file.subrange(22, 26) == le_u32(height)
            &&& file.subrange(28, 30) == le_u16(bits_per_pixel)
            &&& file.subrange(34, 38) == le_u32((file.len() - HEADER_SIZE) as u32)
            &&& file.subrange(54, 62) == palette_bytes()
            &&& forall|y: nat, j: nat| y < height && j < stride ==>
                #[trigger] file[HEADER_SIZE + (height - 1 - y) * stride + j]
                    == if j < row_bytes { pixels[(y * row_bytes + j) as int] } else { 0u8 }
        }),
{
    let file = bmp_file(width, height, bits_per_pixel, pixels);
    let stride = row_stride(width as nat, bits_per_pixel as nat);
    let row_bytes = bytes_for_bits((width * bits_per_pixel) as nat);
    let pad = row_padding(row_bytes);
    lemma_stride_bounds(width, height, bits_per_pixel);
    lemma_stored_rows_len(pixels, row_bytes, pad, height as nat);
    let head = magic_bytes() + bmp_header_bytes((HEADER_SIZE + stride * height) as u32, HEADER_SIZE)
        + dib_header_bytes(width, height, bits_per_pixel, dib_data_size(bits_per_pixel as nat, width as nat, height as nat) as u32)
        + palette_bytes();
    let rows = stored_rows(pixels, row_bytes, pad, height as nat);
    assert(head.len() == HEADER_SIZE);
    assert(file == head + rows);
    assert(file.subrange(0, 2) =~= magic_bytes());
    assert(file.subrange(2, 6) =~= le_u32(file.len() as u32));
    assert(file.subrange(10, 14) =~= le_u32(HEADER_SIZE));
    assert(file.subrange(18, 22) =~= le_u32(width));
    assert(file.subrange(22, 26) =~= le_u32(height));
    assert(file.subrange(28, 30) =~= le_u16(bits_per_pixel));
    assert(file.subrange(34, 38) =~= le_u32((file.len() - HEADER_SIZE) as u32));
    assert(file.subrange(54, 62) =~= palette_bytes());
    assert forall|y: nat, j: nat| y < height && j < stride implies
        #[trigger] file[HEADER_SIZE + (height - 1 - y) * stride + j]
            == if j < row_bytes { pixels[(y * row_bytes + j) as int] } else { 0u8 } by {
        lemma_stored_rows_position(pixels, row_bytes, pad, height as nat, y, j);
        assert((height - 1 - y) * stride + j < stride * height) by (nonlinear_arith)
            requires
                y < height,
                j < stride,
        ;
    }
}

/// The image that `Image::<P>::new(width, height)` gives and `draw_pixels` then changes,
/// batch after batch: `new` gives the view for no batches, and a `draw_pixels` call with
/// `b` turns the view for `batches` into the view for `batches.push(b)`.
pub open spec fn drawn_image<P: Pixel<Data = bool>>(width: u32, height: u32, batches: Seq<Seq<(Coord, bool)>>) -> ImageView
    decreases batches.len(),
{
    if batches.len() == 0 {
        ImageView { width, height, pixels: zeros(bytes_for_bits((width * P::BITS_PER_PIXEL) as nat) * height as nat) }
    } else {
        let prev = drawn_image::<P>(width, height, batches.drop_last());
        ImageView { width, height, pixels: drawn::<P>(prev.pixels, width, batches.last()) }
    }
}

/// A 1-bit image made by `Image::new(width, height)` and drawn on by any sequence of
/// `draw_pixels` calls keeps its width and height (what `dimensions` returns) and the
/// length of its data, and its file (what `image_bytes` returns) is
/// `62 + height * ((width + 31) / 32 * 4)` bytes long, starts with `BM`, holds that length
/// as its file size, 62 as the pixel offset, the width, the height, one bit per pixel,
/// the length of the rows, and the black-and-white palette.
pub proof fn lemma_drawn_image(width: u32, height: u32, batches: Seq<Seq<(Coord, bool)>>)
    requires
        image_size_fits(width, height, 1),
    ensures
        ({
            let view = drawn_image::<U1>(width, height, batches);
            let file = bmp_file(width, height, 1, view.pixels);
            &&& view.width == width
            &&& view.height == height
            &&& view.pixels.len() == bytes_for_bits(width as nat) * height
            &&& file.len() == HEADER_SIZE + height * ((width + 31) / 32 * 4)
            &&& file.subrange(0, 2) == magic_bytes()
            &&& file.subrange(2, 6) == le_u32(file.len() as u32)
            &&& file.subrange(10, 14) == le_u32(HEADER_SIZE)
            &&& file.subrange(18, 22) == le_u32(width)
            &&& file.subrange(22, 26) == le_u32(height)
            &&& file.subrange(28, 30) == le_u16(1)
            &&& file.subrange(34, 38) == le_u32((file.len() - HEADER_SIZE) as u32)
            &&& file.subrange(54, 62) == palette_bytes()
        }),
        forall|b: Seq<(Coord, bool)>| #[trigger] drawn_image::<U1>(width, height, batches.push(b)) == (ImageView {
            width,
            height,
            pixels: drawn::<U1>(drawn_image::<U1>(width, height, batches).pixels, width, b),
        }),
    decreases batches.len(),
{
    lemma_u1_bits_per_pixel();
    let view = drawn_image::<U1>(width, height, batches);
    if batches.len() == 0 {
        assert(view.pixels.len() == bytes_for_bits(width as nat) * height);
    } else {
        lemma_drawn_image(width, height, batches.drop_last());
        lemma_drawn_len(drawn_image::<U1>(width, height, batches.drop_last()).pixels, width, batches.last());
    }
    lemma_bmp_file_layout(width, height, 1, view.pixels);
    lemma_row_stride_words(width as nat);
    assert(row_stride(width as nat, 1) * height == height * ((width + 31) / 32 * 4)) by (nonlinear_arith)
        requires
            row_stride(width as nat, 1) == (width + 31) / 32 * 4,
    ;
    assert forall|b: Seq<(Coord, bool)>| #[trigger] drawn_image::<U1>(width, height, batches.push(b)) == (ImageView {
        width,
        height,
        pixels: drawn::<U1>(drawn_image::<U1>(width, height, batches).pixels, width, b),
    }) by {
        assert(batches.push(b).drop_last() =~= batches);
    }
}

/// Of the pixels drawn, the last one drawn at a position inside the data decides that
/// position: drawing `(coord, value)` last leaves pixel `coord.y * width + coord.x`
/// holding `value`.
pub proof fn lemma_last_drawn_wins(before: Seq<u8>, width: u32, pixels: Seq<(Coord, bool)>, coord: Coord, value: bool)
    requires
        coord.y * width + coord.x <= u32::MAX,
        (coord.y * width + coord.x) / 8 < before.len(),
        indices_fit(width, pixels),
    ensures
        drawn::<U1>(before, width, pixels.push((coord, value))).len() == before.len(),
        pixel_of(drawn::<U1>(before, width, pixels.push((coord, value))), (coord.y * width + coord.x) as nat) == value,
{
    lemma_drawn_len(before, width, pixels);
    let prev = drawn::<U1>(before, width, pixels);
    assert(pixels.push((coord, value)).drop_last() =~= pixels);
    let idx = (coord.y * width + coord.x) as usize;
    lemma_u1_read_after_write(prev, idx, value, idx as nat);
}

/// Drawing 1-bit pixels keeps the length of the packed data.
pub proof fn lemma_drawn_len(before: Seq<u8>, width: u32, pixels: Seq<(Coord, bool)>)
    ensures
        drawn::<U1>(before, width, pixels).len() == before.len(),
    decreases pixels.len(),
{
    if pixels.len() > 0 {
        lemma_drawn_len(before, width, pixels.drop_last());
    }
}

} // verus!
