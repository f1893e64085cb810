use spawn_camp::bitmap::{
    create_lm_bitmap, get_lm_page, page_byte_len, scaled_dimensions, BitmapError, Dimensions,
    LmPage, PixelFormat,
};

fn page(w: u16, h: u16, fill: u8) -> LmPage {
    LmPage {
        dimensions: Dimensions { w, h },
        data_format: PixelFormat::R5G6B5,
        data: vec![fill; w as usize * h as usize * 2],
    }
}

#[test]
fn packed_offsets_partition_bytes() {
    let pages = vec![page(4, 4, 1), page(8, 2, 2), page(1, 1, 3)];
    let b = create_lm_bitmap(&pages);
    assert_eq!(b.pixel_data.len(), 32 + 32 + 2);
    let offsets: Vec<u32> = b.pages.iter().map(|e| e.pixel_data_offset).collect();
    assert_eq!(offsets, vec![0, 32, 64]);
    let total: u64 = b
        .pages
        .iter()
        .map(|e| page_byte_len(Dimensions { w: e.width, h: e.height }, e.format))
        .sum();
    assert_eq!(total, b.pixel_data.len() as u64);
    assert_eq!(b.pages[1].width, 8);
    assert_eq!(b.pages[1].height, 2);
    assert_eq!(b.pages[1].registration_x, 4);
    assert_eq!(b.pages[1].registration_y, 1);
    assert_eq!(b.pages[2].format, PixelFormat::R5G6B5);
}

#[test]
fn pages_come_back_out() {
    let pages = vec![page(2, 2, 9), page(4, 2, 7)];
    let b = create_lm_bitmap(&pages);
    for (i, p) in pages.iter().enumerate() {
        let back = get_lm_page(&b, i as u16).unwrap();
        assert_eq!(back.dimensions, p.dimensions);
        assert_eq!(back.data_format, p.data_format);
        assert_eq!(back.data, p.data);
    }
}

#[test]
fn empty_page_list() {
    let b = create_lm_bitmap(&Vec::new());
    assert!(b.pixel_data.is_empty());
    assert!(b.pages.is_empty());
    assert_eq!(get_lm_page(&b, 0).err(), Some(BitmapError::NoSuchPage));
}

#[test]
fn page_past_data_is_rejected() {
    let mut b = create_lm_bitmap(&vec![page(2, 2, 1)]);
    b.pixel_data.pop();
    assert_eq!(get_lm_page(&b, 0).err(), Some(BitmapError::DataOutOfRange));
    assert_eq!(get_lm_page(&b, 1).err(), Some(BitmapError::NoSuchPage));
}

#[test]
fn byte_lengths_by_format() {
    let d = Dimensions { w: 8, h: 4 };
    assert_eq!(page_byte_len(d, PixelFormat::R5G6B5), 64);
    assert_eq!(page_byte_len(d, PixelFormat::A8R8G8B8), 128);
    assert_eq!(page_byte_len(d, PixelFormat::Y8), 32);
    assert_eq!(page_byte_len(d, PixelFormat::DXT1), 16);
    assert_eq!(page_byte_len(Dimensions { w: 65535, h: 65535 }, PixelFormat::A8R8G8B8), 65535 * 65535 * 4);
}

#[test]
fn scale_sixty_four_by_four() {
    assert_eq!(
        scaled_dimensions(Dimensions { w: 64, h: 64 }, 4),
        Ok(Dimensions { w: 256, h: 256 })
    );
    assert_eq!(
        scaled_dimensions(Dimensions { w: 8192, h: 1 }, 8),
        Err(BitmapError::TooLarge)
    );
}
