use vstd::prelude::*;

verus! {

/// Width and height of a lightmap page, in pixels.
#[derive(Clone, Copy, PartialEq, Eq, Structural, Debug)]
pub struct Dimensions {
    pub w: u16,
    pub h: u16,
}

/// The pixel formats a bitmap page can be stored in.
#[derive(Clone, Copy, PartialEq, Eq, Structural, Debug)]
pub enum PixelFormat {
    A8,
    Y8,
    AY8,
    A8Y8,
    R5G6B5,
    A1R5G5B5,
    A4R4G4B4,
    X8R8G8B8,
    A8R8G8B8,
    DXT1,
    DXT3,
    DXT5,
    P8,
}

pub open spec fn bits_per_pixel(f: PixelFormat) -> nat {
    match f {
        PixelFormat::A8 | PixelFormat::Y8 | PixelFormat::AY8 | PixelFormat::P8 => 8,
        PixelFormat::A8Y8 | PixelFormat::R5G6B5 | PixelFormat::A1R5G5B5
        | PixelFormat::A4R4G4B4 => 16,
        PixelFormat::X8R8G8B8 | PixelFormat::A8R8G8B8 => 32,
        PixelFormat::DXT1 => 4,
        PixelFormat::DXT3 | PixelFormat::DXT5 => 8,
    }
}

/// The number of bytes a page of these dimensions takes in this format.
pub open spec fn byte_len(d: Dimensions, f: PixelFormat) -> nat {
    (d.w * d.h * bits_per_pixel(f) / 8) as nat
}

pub fn format_bits_per_pixel(f: PixelFormat) -> (r: u8)
    ensures
        r == bits_per_pixel(f),
{
    match f {
        PixelFormat::A8 | PixelFormat::Y8 | PixelFormat::AY8 | PixelFormat::P8 => 8,
        PixelFormat::A8Y8 | PixelFormat::R5G6B5 | PixelFormat::A1R5G5B5
        | PixelFormat::A4R4G4B4 => 16,
        PixelFormat::X8R8G8B8 | PixelFormat::A8R8G8B8 => 32,
        PixelFormat::DXT1 => 4,
        PixelFormat::DXT3 | PixelFormat::DXT5 => 8,
    }
}

pub fn page_byte_len(d: Dimensions, f: PixelFormat) -> (r: u64)
    ensures
        r == byte_len(d, f),
{
    let bits = format_bits_per_pixel(f) as u64;
    let w = d.w as u64;
    let h = d.h as u64;
    assert(w * h <= 65535 * 65535) by (nonlinear_arith)
        requires
            w <= 65535,
            h <= 65535,
    ;
    let wh = w * h;
    assert(wh * bits <= 65535 * 65535 * 32) by (nonlinear_arith)
        requires
            wh <= 65535 * 65535,
            bits <= 32,
    ;
    (wh * bits) / 8
}

/// One page of a lightmap bitmap with its own pixel bytes.
pub struct LmPage {
    pub dimensions: Dimensions,
    pub data_format: PixelFormat,
    pub data: Vec<u8>,
}

impl LmPage {
    /// The page holds exactly as many bytes as its dimensions and format ask.
    pub open spec fn well_formed(&self) -> bool {
        self.data@.len() == byte_len(self.dimensions, self.data_format)
    }
}

/// One entry of a bitmap's page table.
#[derive(Clone, Copy, PartialEq, Eq, Structural, Debug)]
pub struct PageEntry {
    pub width: u16,
    pub height: u16,
    pub format: PixelFormat,
    pub pixel_data_offset: u32,
    pub registration_x: i16,
    pub registration_y: i16,
}

/// A lightmap bitmap: the packed pixel bytes of every page, and the page
/// table that slices them.
pub struct LmBitmap {
    pub pixel_data: Vec<u8>,
    pub pages: Vec<PageEntry>,
}

#[derive(Clone, Copy, PartialEq, Eq, Structural, Debug)]
pub enum BitmapError {
    /// The page table has no entry at this index.
    NoSuchPage,
    /// The entry's bytes reach past the end of the pixel data.
    DataOutOfRange,
    /// Scaling the dimensions overflows a `u16`.
    TooLarge,
}

pub open spec fn entry_len(e: PageEntry) -> nat {
    byte_len(Dimensions { w: e.width, h: e.height }, e.format)
}

/// The bytes of page `i`, as the page table slices them out of `pixel`.
pub open spec fn page_slice(es: Seq<PageEntry>, pixel: Seq<u8>, i: int) -> Option<Seq<u8>> {
    if 0 <= i < es.len() && es[i].pixel_data_offset + entry_len(es[i]) <= pixel.len() {
        Some(
            pixel.subrange(
                es[i].pixel_data_offset as int,
                es[i].pixel_data_offset + entry_len(es[i]),
            ),
        )
    } else {
        None
    }
}

/// The sum of the byte lengths of the pages.
pub open spec fn total_len(pages: Seq<LmPage>) -> nat
    decreases pages.len(),
{
    if pages.len() == 0 {
        0
    } else {
        total_len(pages.drop_last()) + pages.last().data@.len()
    }
}

/// The bytes of the pages, one after the other.
pub open spec fn packed(pages: Seq<LmPage>) -> Seq<u8>
    decreases pages.len(),
{
    if pages.len() == 0 {
        Seq::empty()
    } else {
        packed(pages.drop_last()) + pages.last().data@
    }
}

/// Where page `i` starts in the packed bytes.
pub open spec fn page_offset(pages: Seq<LmPage>, i: int) -> nat {
    total_len(pages.subrange(0, i))
}

pub open spec fn entry_for(p: LmPage, offset: nat) -> PageEntry {
    PageEntry {
        width: p.dimensions.w,
        height: p.dimensions.h,
        format: p.data_format,
        pixel_data_offset: offset as u32,
        registration_x: (p.dimensions.w / 2) as i16,
        registration_y: (p.dimensions.h / 2) as i16,
    }
}

/// The page table of the packed pages.
pub open spec fn table_of(pages: Seq<LmPage>) -> Seq<PageEntry> {
    Seq::new(pages.len(), |i: int| entry_for(pages[i], page_offset(pages, i)))
}

/// Extracts page `index` of a bitmap.
pub fn get_lm_page(bitmap: &LmBitmap, index: u16) -> (r: Result<LmPage, BitmapError>)
    ensures
        index >= bitmap.pages@.len() ==> r == Err::<LmPage, BitmapError>(BitmapError::NoSuchPage),
        index < bitmap.pages@.len() && page_slice(bitmap.pages@, bitmap.pixel_data@, index as int)
            is None ==> r == Err::<LmPage, BitmapError>(BitmapError::DataOutOfRange),
        r is Ok <==> page_slice(bitmap.pages@, bitmap.pixel_data@, index as int) is Some,
        r matches Ok(page) ==> {
            let e = bitmap.pages@[index as int];
            &&& page.dimensions == Dimensions { w: e.width, h: e.height }
            &&& page.data_format == e.format
            &&& Some(page.data@) == page_slice(bitmap.pages@, bitmap.pixel_data@, index as int)
        },
{
    if index as usize >= bitmap.pages.len() {
        return Err(BitmapError::NoSuchPage);
    }
    let e = bitmap.pages[index as usize];
    let dimensions = Dimensions { w: e.width, h: e.height };
    let size = page_byte_len(dimensions, e.format);
    let len = bitmap.pixel_data.len();
    if size > len as u64 || e.pixel_data_offset as u64 > len as u64 - size {
        return Err(BitmapError::DataOutOfRange);
    }
    let start = e.pixel_data_offset as usize;
    let end = start + size as usize;
    let mut data: Vec<u8> = Vec::new();
    let mut i: usize = start;
    while i < end
        invariant
            start <= i <= end <= bitmap.pixel_data@.len(),
            data@ == bitmap.pixel_data@.subrange(start as int, i as int),
        decreases end - i,
    {
        data.push(bitmap.pixel_data[i]);
        assert(bitmap.pixel_data@.subrange(start as int, i + 1) == bitmap.pixel_data@.subrange(
            start as int,
            i as int,
        ).push(bitmap.pixel_data@[i as int]));
        i = i + 1;
    }
    Ok(LmPage { dimensions, data_format: e.format, data })
}

proof fn lemma_total_prefix(pages: Seq<LmPage>, i: int)
    requires
        0 <= i < pages.len(),
    ensures
        total_len(pages.subrange(0, i + 1)) == total_len(pages.subrange(0, i))
            + pages[i].data@.len(),
        packed(pages.subrange(0, i + 1)) == packed(pages.subrange(0, i)) + pages[i].data@,
{
    assert(pages.subrange(0, i + 1).drop_last() == pages.subrange(0, i));
}

proof fn lemma_total_monotone(pages: Seq<LmPage>, i: int)
    requires
        0 <= i <= pages.len(),
    ensures
        total_len(pages.subrange(0, i)) <= total_len(pages),
    decreases pages.len() - i,
{
    if i < pages.len() {
        lemma_total_prefix(pages, i);
        lemma_total_monotone(pages, i + 1);
    } else {
        assert(pages.subrange(0, i) == pages);
    }
}

proof fn lemma_packed_len(pages: Seq<LmPage>)
    ensures
        packed(pages).len() == total_len(pages),
    decreases pages.len(),
{
    if pages.len() > 0 {
        lemma_packed_len(pages.drop_last());
    }
}

/// Packs the pages into one bitmap: their bytes in order, and a page table
/// whose offsets are the running sums of the byte lengths before each page.
pub fn create_lm_bitmap(pages: &Vec<LmPage>) -> (r: LmBitmap)
    requires
        total_len(pages@) <= u32::MAX,
    ensures
        r.pixel_data@ == packed(pages@),
        r.pages@ == table_of(pages@),
{
    let mut pixel_data: Vec<u8> = Vec::new();
    let mut table: Vec<PageEntry> = Vec::new();
    let mut offset: u32 = 0;
    let mut i: usize = 0;
    while i < pages.len()
        invariant
            i <= pages@.len(),
            total_len(pages@) <= u32::MAX,
            offset == total_len(pages@.subrange(0, i as int)),
            pixel_data@ == packed(pages@.subrange(0, i as int)),
            table@ == table_of(pages@).subrange(0, i as int),
        decreases pages.len() - i,
    {
        let page = &pages[i];
        proof {
            lemma_total_prefix(pages@, i as int);
            lemma_total_monotone(pages@, i + 1);
        }
        let d = page.dimensions;
        table.push(
            PageEntry {
                width: d.w,
                height: d.h,
                format: page.data_format,
                pixel_data_offset: offset,
                registration_x: (d.w / 2) as i16,
                registration_y: (d.h / 2) as i16,
            },
        );
        let ghost before = pixel_data@;
        let mut j: usize = 0;
        while j < page.data.len()
            invariant
                j <= page.data@.len(),
                pixel_data@ == before + page.data@.subrange(0, j as int),
            decreases page.data.len() - j,
        {
            pixel_data.push(page.data[j]);
            assert(page.data@.subrange(0, j + 1) == page.data@.subrange(0, j as int).push(
                page.data@[j as int],
            ));
            j = j + 1;
        }
        assert(page.data@.subrange(0, page.data@.len() as int) == page.data@);
        assert(table@ == table_of(pages@).subrange(0, i + 1));
        offset = offset + page.data.len() as u32;
        i = i + 1;
    }
    assert(pages@.subrange(0, pages@.len() as int) == pages@);
    assert(table@ == table_of(pages@));
    LmBitmap { pixel_data, pages: table }
}

/// The page's dimensions scaled up by `scale`.
pub fn scaled_dimensions(d: Dimensions, scale: u16) -> (r: Result<Dimensions, BitmapError>)
    ensures
        r is Ok <==> d.w * scale <= u16::MAX && d.h * scale <= u16::MAX,
        r matches Ok(s) ==> s.w == d.w * scale && s.h == d.h * scale,
        r is Err ==> r == Err::<Dimensions, BitmapError>(BitmapError::TooLarge),
{
    let sw = d.w as u32;
    let sh = d.h as u32;
    let sc = scale as u32;
    assert(sw * sc <= 65535 * 65535 && sh * sc <= 65535 * 65535) by (nonlinear_arith)
        requires
            sw <= 65535,
            sh <= 65535,
            sc <= 65535,
    ;
    let w = sw * sc;
    let h = sh * sc;
    if w > u16::MAX as u32 || h > u16::MAX as u32 {
        Err(BitmapError::TooLarge)
    } else {
        Ok(Dimensions { w: w as u16, h: h as u16 })
    }
}

/// The sum of the byte lengths that the page table's entries give.
pub open spec fn entries_len(es: Seq<PageEntry>) -> nat
    decreases es.len(),
{
    if es.len() == 0 {
        0
    } else {
        entries_len(es.drop_last()) + entry_len(es.last())
    }
}

proof fn lemma_packed_prefix(pages: Seq<LmPage>, j: int)
    requires
        0 <= j <= pages.len(),
    ensures
        total_len(pages.subrange(0, j)) <= packed(pages).len(),
        packed(pages).subrange(0, total_len(pages.subrange(0, j)) as int) == packed(
            pages.subrange(0, j),
        ),
    decreases pages.len() - j,
{
    lemma_packed_len(pages.subrange(0, j));
    if j == pages.len() {
        assert(pages.subrange(0, j) == pages);
    } else {
        lemma_packed_prefix(pages, j + 1);
        lemma_total_prefix(pages, j);
        let t = total_len(pages.subrange(0, j)) as int;
        assert(packed(pages).subrange(0, t) == packed(pages.subrange(0, j + 1)).subrange(0, t));
    }
}

proof fn lemma_table_len(pages: Seq<LmPage>)
    requires
        forall|i: int| 0 <= i < pages.len() ==> (#[trigger] pages[i]).well_formed(),
        total_len(pages) <= u32::MAX,
    ensures
        entries_len(table_of(pages)) == total_len(pages),
    decreases pages.len(),
{
    if pages.len() > 0 {
        let rest = pages.drop_last();
        assert forall|i: int| 0 <= i < rest.len() implies (#[trigger] rest[i]).well_formed() by {
            assert(rest[i] == pages[i]);
        }
        lemma_total_monotone(pages, pages.len() - 1);
        assert(pages.subrange(0, pages.len() - 1) == rest);
        lemma_table_len(rest);
        assert forall|i: int| 0 <= i < rest.len() implies #[trigger] table_of(pages)[i] == table_of(
            rest,
        )[i] by {
            assert(pages.subrange(0, i) == rest.subrange(0, i));
        }
        assert(table_of(pages).drop_last() == table_of(rest));
        assert(pages.last().well_formed());
    }
}

/// Assembling well-formed pages gives a page table whose entries partition the
/// packed bytes: their lengths add up to the packed length, and the table
/// slices out of the packed bytes exactly the bytes of each page.
pub proof fn lemma_page_table_partitions(pages: Seq<LmPage>)
    requires
        forall|i: int| 0 <= i < pages.len() ==> (#[trigger] pages[i]).well_formed(),
        total_len(pages) <= u32::MAX,
    ensures
        entries_len(table_of(pages)) == packed(pages).len(),
        forall|i: int|
            0 <= i < pages.len() ==> #[trigger] page_slice(table_of(pages), packed(pages), i)
                == Some(pages[i].data@),
{
    lemma_table_len(pages);
    lemma_packed_len(pages);
    assert forall|i: int| 0 <= i < pages.len() implies #[trigger] page_slice(
        table_of(pages),
        packed(pages),
        i,
    ) == Some(pages[i].data@) by {
        lemma_packed_prefix(pages, i + 1);
        lemma_total_prefix(pages, i);
        lemma_packed_len(pages.subrange(0, i));
        assert(pages[i].well_formed());
        let off = total_len(pages.subrange(0, i)) as int;
        let len = pages[i].data@.len() as int;
        let whole = packed(pages);
        assert(whole.subrange(off, off + len) == whole.subrange(0, off + len).subrange(off, off + len));
    }
}

/// The packed bytes are exactly as long as the pages together, and the
/// running offsets partition them with no gap and no overlap: the first page
/// starts at 0, each page starts where the one before it ends, the last ends
/// at the end of the packed bytes, and each page's range holds its bytes.
pub proof fn lemma_offsets_partition(pages: Seq<LmPage>)
    ensures
        packed(pages).len() == total_len(pages),
        page_offset(pages, 0) == 0,
        page_offset(pages, pages.len() as int) == packed(pages).len(),
        forall|i: int|
            0 <= i < pages.len() ==> page_offset(pages, i + 1) == page_offset(pages, i)
                + (#[trigger] pages[i]).data@.len(),
        forall|i: int|
            0 <= i < pages.len() ==> packed(pages).subrange(
                page_offset(pages, i) as int,
                page_offset(pages, i + 1) as int,
            ) == (#[trigger] pages[i]).data@,
{
    lemma_packed_len(pages);
    assert(pages.subrange(0, 0) =~= Seq::<LmPage>::empty());
    assert(pages.subrange(0, pages.len() as int) == pages);
    assert forall|i: int| 0 <= i < pages.len() implies page_offset(pages, i + 1) == page_offset(
        pages,
        i,
    ) + (#[trigger] pages[i]).data@.len() && packed(pages).subrange(
        page_offset(pages, i) as int,
        page_offset(pages, i + 1) as int,
    ) == pages[i].data@ by {
        lemma_total_prefix(pages, i);
        lemma_packed_prefix(pages, i + 1);
        lemma_packed_len(pages.subrange(0, i));
        let off = page_offset(pages, i) as int;
        let end = page_offset(pages, i + 1) as int;
        let whole = packed(pages);
        assert(whole.subrange(off, end) == whole.subrange(0, end).subrange(off, end));
    }
}

} // verus!
