use pdr::enhance::{
    apply_levels, auto_level_adjust, auto_level_levels, background_pixels, plan_auto_level,
    AutoLevelPlan, binarize, contrast_stretch, contrast_stretch_amount,
    histogram, percentile, plan_enhance, ContrastStep, Enhance, EnhancePlan, GrayImage,
};

fn image_from(width: u32, height: u32, pixels: Vec<u8>) -> GrayImage {
    GrayImage::from_raw(width, height, pixels).expect("pixel count matches")
}

fn min_max(img: &GrayImage) -> (u8, u8) {
    let px = img.as_raw();
    (*px.iter().min().unwrap(), *px.iter().max().unwrap())
}

/// The cut of 2% of the pixel total, as the reader computes it.
fn cut_for(img: &GrayImage) -> u32 {
    let total = (img.width() * img.height()).max(1);
    (total as f32 * 0.02) as u32
}

#[test]
fn contrast_uses_full_range() {
    let mut img = GrayImage::new(10, 10);
    for i in 0..100u32 {
        img.put_pixel(i % 10, i / 10, 100 + (i % 50) as u8);
    }
    let cut = cut_for(&img);
    let out = contrast_stretch(img, cut);
    let (min, max) = min_max(&out);
    assert_eq!(min, 0);
    assert_eq!(max, 255);
}

#[test]
fn zero_strength_preserves_image() {
    let mut px = Vec::new();
    for y in 0..5u32 {
        for x in 0..5u32 {
            px.push(32 + (x + y) as u8);
        }
    }
    let img = image_from(5, 5, px);
    assert_eq!(contrast_stretch_amount(img.clone(), 0, cut_for(&img)), img);
}

/// The level table of the reader: each level pulled toward 20 (text) and
/// 245 (background), weakened on pages with little uniform background.
fn reader_levels(plan: AutoLevelPlan, amount: u8) -> [u8; 256] {
    let requested = amount.min(100) as f32;
    let ratio = plan.background_pixels as u32 as f32 / plan.total.max(1) as f32;
    let confidence = if ratio >= 0.35 {
        1.0
    } else if ratio >= 0.15 {
        0.5
    } else {
        0.25
    };
    let blend = requested * confidence / 100.0;
    let range = (plan.background - plan.dark) as f32;
    let mut table = [0u8; 256];
    for (level, entry) in table.iter_mut().enumerate() {
        let original = level as f32;
        let normalized = ((original - plan.dark as f32) / range).clamp(0.0, 1.0);
        let target = 20.0 + normalized * (245.0 - 20.0);
        *entry = (original + (target - original) * blend).round().clamp(0.0, 255.0) as u8;
    }
    table
}

fn two_tone_page(left: u8, right: u8) -> GrayImage {
    let mut px = Vec::new();
    for _y in 0..10u32 {
        for x in 0..10u32 {
            px.push(if x < 2 { left } else { right });
        }
    }
    image_from(10, 10, px)
}

#[test]
fn auto_level_preserves_low_contrast_blank_page() {
    let img = GrayImage::from_pixel(10, 10, 240);
    assert_eq!(auto_level_adjust(img.clone(), 100, |p| reader_levels(p, 100)), img);
    let (hist, total) = histogram(&img);
    assert_eq!(auto_level_levels(&hist, total), None);
}

#[test]
fn auto_level_normalizes_pages_with_different_density() {
    let light_page = two_tone_page(120, 230);
    let dark_page = two_tone_page(70, 190);

    let light_out = auto_level_adjust(light_page, 100, |p| reader_levels(p, 100));
    let dark_out = auto_level_adjust(dark_page, 100, |p| reader_levels(p, 100));

    assert_eq!(light_out.get_pixel(0, 0), 20);
    assert_eq!(dark_out.get_pixel(0, 0), 20);
    assert_eq!(light_out.get_pixel(9, 0), 245);
    assert_eq!(dark_out.get_pixel(9, 0), 245);
}

#[test]
fn auto_level_at_zero_strength_leaves_page() {
    let page = two_tone_page(120, 230);
    let out = auto_level_adjust(page.clone(), 0, |_| [0u8; 256]);
    assert_eq!(out, page);
    assert_eq!(plan_auto_level(&page, 0), None);
}

#[test]
fn auto_level_plan_holds_levels_and_counts() {
    let page = two_tone_page(120, 230);
    let plan = plan_auto_level(&page, 100).expect("enough contrast");
    assert_eq!(plan.dark, 120);
    assert_eq!(plan.background, 230);
    assert_eq!(plan.background_pixels, 80);
    assert_eq!(plan.total, 100);
    assert_eq!(plan_auto_level(&GrayImage::from_pixel(4, 4, 240), 100), None);
    assert_eq!(plan_auto_level(&two_tone_page(210, 250), 100), None);
}

#[test]
fn level_table_maps_every_pixel() {
    let mut table = [0u8; 256];
    for (i, e) in table.iter_mut().enumerate() {
        *e = 255 - i as u8;
    }
    let out = apply_levels(image_from(3, 1, vec![0, 10, 255]), &table);
    assert_eq!(out.as_raw(), &vec![255, 245, 0]);
    assert_eq!((out.width(), out.height()), (3, 1));
}

#[test]
fn enhance_new_clamps_strengths() {
    let e = Enhance::new(150, 101, true);
    assert_eq!(e.contrast, 100);
    assert_eq!(e.sharpen, 100);
    assert!(!e.auto_level);
    assert!(e.binarize);
    let e = Enhance::new(40, 0, false);
    assert_eq!((e.contrast, e.sharpen, e.binarize), (40, 0, false));
    assert_eq!(Enhance::none(), Enhance::new(0, 0, false));
    assert_eq!(Enhance::default(), Enhance::none());
}

#[test]
fn gray_image_rejects_wrong_buffer_length() {
    assert!(GrayImage::from_raw(3, 2, vec![0; 5]).is_none());
    assert!(GrayImage::from_raw(3, 2, vec![0; 7]).is_none());
    assert!(GrayImage::from_raw(3, 2, vec![0; 6]).is_some());
    assert!(GrayImage::from_raw(0x10000, 0x10000, Vec::new()).is_none());
}

#[test]
fn pixels_are_stored_row_by_row() {
    let mut img = GrayImage::new(3, 2);
    img.put_pixel(2, 1, 9);
    img.put_pixel(0, 1, 7);
    assert_eq!(img.as_raw(), &vec![0, 0, 0, 7, 0, 9]);
    assert_eq!(img.get_pixel(2, 1), 9);
    assert_eq!(img.clone().into_raw(), vec![0, 0, 0, 7, 0, 9]);
}

#[test]
fn histogram_counts_each_level() {
    let img = image_from(3, 2, vec![5, 5, 0, 255, 5, 0]);
    let (hist, total) = histogram(&img);
    assert_eq!(hist.len(), 256);
    assert_eq!(hist[5], 3);
    assert_eq!(hist[0], 2);
    assert_eq!(hist[255], 1);
    assert_eq!(hist.iter().sum::<u32>(), 6);
    assert_eq!(total, 6);
    let (_, empty_total) = histogram(&GrayImage::new(0, 4));
    assert_eq!(empty_total, 1);
}

#[test]
fn percentile_finds_first_level_reaching_the_target() {
    // 10 pixels: levels 10 (x3), 20 (x5), 200 (x2)
    let mut hist = vec![0u32; 256];
    hist[10] = 3;
    hist[20] = 5;
    hist[200] = 2;
    assert_eq!(percentile(&hist, 10, 0), 10); // target 1
    assert_eq!(percentile(&hist, 10, 300), 10); // target 3
    assert_eq!(percentile(&hist, 10, 400), 20); // target 4
    assert_eq!(percentile(&hist, 10, 800), 20); // target 8
    assert_eq!(percentile(&hist, 10, 900), 200); // target 9
    assert_eq!(percentile(&hist, 10, 5000), 200); // capped at 1000
    assert_eq!(percentile(&hist, 11, 1000), 255); // never reached
}

#[test]
fn percentile_never_decreases_with_position() {
    let mut hist = vec![0u32; 256];
    for (v, slot) in hist.iter_mut().enumerate() {
        *slot = (v % 7) as u32;
    }
    let total: u32 = hist.iter().sum();
    let mut last = 0u8;
    for p in (0..=1100).step_by(25) {
        let r = percentile(&hist, total, p);
        assert!(r >= last);
        last = r;
    }
}

#[test]
fn contrast_stretch_keeps_pixel_order() {
    let px: Vec<u8> = (0..64u32).map(|i| ((i * 37) % 200 + 20) as u8).collect();
    let img = image_from(8, 8, px.clone());
    let out = contrast_stretch_amount(img, 60, 1);
    let o = out.as_raw();
    for i in 0..64 {
        for j in 0..64 {
            if px[i] <= px[j] {
                assert!(o[i] <= o[j]);
            }
        }
    }
}

#[test]
fn contrast_stretch_blends_with_strength() {
    // levels 100 and 150, nothing cut: lo = 100, hi = 150
    let img = image_from(2, 1, vec![100, 150]);
    let out = contrast_stretch_amount(img.clone(), 100, 0);
    assert_eq!(out.as_raw(), &vec![0, 255]);
    // half strength: (100 * 50 + 0 * 50 + 50) / 100 = 50, (150 * 50 + 255 * 50 + 50) / 100 = 203
    let half = contrast_stretch_amount(img.clone(), 50, 0);
    assert_eq!(half.as_raw(), &vec![50, 203]);
    // strengths above 100 count as 100
    assert_eq!(contrast_stretch_amount(img, 250, 0).as_raw(), &vec![0, 255]);
}

#[test]
fn contrast_stretch_maps_levels_linearly() {
    // lo = 10, hi = 20: level 15 goes to (15 - 10) * 255 / 10 = 127
    let img = image_from(3, 1, vec![10, 15, 20]);
    let out = contrast_stretch(img, 0);
    assert_eq!(out.as_raw(), &vec![0, 127, 255]);
}

#[test]
fn contrast_stretch_leaves_flat_image() {
    let img = GrayImage::from_pixel(4, 4, 77);
    assert_eq!(contrast_stretch(img.clone(), 0), img);
}

#[test]
fn binarize_leaves_only_black_and_white() {
    let img = image_from(4, 2, vec![64, 192, 64, 192, 128, 129, 0, 255]);
    let out = binarize(img, 128);
    assert_eq!(out.as_raw(), &vec![0, 255, 0, 255, 0, 255, 0, 255]);
    assert_eq!((out.width(), out.height()), (4, 2));
}

#[test]
fn auto_levels_find_dark_and_background() {
    // 10x10 page: two columns of text at 120, background at 230
    let mut px = Vec::new();
    for _y in 0..10 {
        for x in 0..10 {
            px.push(if x < 2 { 120 } else { 230 });
        }
    }
    let img = image_from(10, 10, px);
    let (hist, total) = histogram(&img);
    assert_eq!(auto_level_levels(&hist, total), Some((120, 230)));
    assert_eq!(background_pixels(&hist, 230), 80);
    assert_eq!(background_pixels(&hist, 10), 100);
}

#[test]
fn auto_levels_skip_dark_pages() {
    let mut px = vec![210u8; 50];
    px.extend(vec![250u8; 50]);
    let img = image_from(10, 10, px);
    let (hist, total) = histogram(&img);
    assert_eq!(auto_level_levels(&hist, total), None);
}

#[test]
fn plan_follows_settings() {
    assert_eq!(plan_enhance(Enhance::new(50, 50, true)), EnhancePlan::Binarize);
    assert_eq!(plan_enhance(Enhance::none()), EnhancePlan::Unchanged);
    assert_eq!(
        plan_enhance(Enhance::new(30, 0, false)),
        EnhancePlan::Gray { contrast: ContrastStep::Stretch(30), sharpen: 0 }
    );
    let mut e = Enhance::new(30, 20, false);
    e.auto_level = true;
    assert_eq!(
        plan_enhance(e),
        EnhancePlan::Gray { contrast: ContrastStep::AutoLevel(30), sharpen: 20 }
    );
    assert_eq!(
        plan_enhance(Enhance::new(0, 20, false)),
        EnhancePlan::Gray { contrast: ContrastStep::Unchanged, sharpen: 20 }
    );
}
