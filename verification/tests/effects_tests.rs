use square_wheel::generative_texture_effect_fire::{
    draw_heat_lightning, draw_heat_lightning_with_offsets, draw_heat_line, fire_estimated_texel_count,
    fire_resolution_valid, generate_emissive_texture_based_on_heat_map, lightning_offsets, line_cell_addresses,
    make_gray_palette, set_heat, update_heat_map, TextureLite, MAX_HEAT_ATTENUATION,
};
use square_wheel::color::Color32;
use square_wheel::generative_texture_effect_water::{water_estimated_texel_count, water_resolution_valid};
use square_wheel::generative_texture_effects_common::create_rand_engine;
use square_wheel::map_materials_processor::{
    animated_textures_update_period_default, MapMaterialsProcessor, MapMaterialsProcessorConfig,
};
use square_wheel::fixed_math::{fixed16_floor_to_int, fixed16_round_to_int, int_to_fixed16};

fn config(period: u32, limit: u32) -> MapMaterialsProcessorConfig {
    MapMaterialsProcessorConfig { animated_textures_update_period: period, animated_textures_update_texels_limit: limit }
}

#[test]
fn textures_are_spread_over_bins_by_texels() {
    let counts = vec![Some(100), None, Some(40), Some(50), Some(10)];
    let p = MapMaterialsProcessor::new(config(2, 0), counts);
    assert_eq!(p.get_num_animated_texels(), 200);
    // 100 goes to bin 0, 40 to bin 1, 50 to bin 1 (40 < 100), 10 to bin 1 (90 < 100).
    assert_eq!(p.get_animated_texture_orders(), vec![0, 0, 1, 1, 1]);
}

#[test]
fn period_of_one_updates_everything_each_frame() {
    let counts = vec![Some(5), None, Some(7)];
    let mut p = MapMaterialsProcessor::new(config(1, 0), counts);
    assert_eq!(p.get_animated_texture_orders(), vec![0, 0, 0]);
    let (dirty, animate) = p.update(config(1, 0));
    assert!(!dirty);
    assert_eq!(animate, vec![true, false, true]);
}

#[test]
fn out_of_bounds_period_is_corrected() {
    let mut p = MapMaterialsProcessor::new(config(1, 0), vec![Some(1), Some(1)]);
    assert!(p.synchronize_config(config(40, 0)));
    assert_eq!(p.get_config().animated_textures_update_period, 16);
    assert_eq!(p.get_animated_texture_orders(), vec![0, 1]);
    assert!(p.synchronize_config(config(0, 0)));
    assert_eq!(p.get_config().animated_textures_update_period, 1);
    assert_eq!(p.get_animated_texture_orders(), vec![0, 0]);
    assert!(!p.synchronize_config(config(3, 0)));
}

#[test]
fn each_texture_is_animated_once_per_period() {
    let mut p = MapMaterialsProcessor::new(config(3, 0), vec![Some(10), Some(10), Some(10), Some(10)]);
    let mut counts = vec![0; 4];
    for _ in 0 .. 6 {
        let (_, animate) = p.update(config(3, 0));
        for (c, a) in counts.iter_mut().zip(animate.iter()) {
            if *a {
                *c += 1;
            }
        }
    }
    assert_eq!(counts, vec![2, 2, 2, 2]);
}

#[test]
fn texel_limit_lengthens_the_period() {
    let mut p = MapMaterialsProcessor::new(config(1, 0), vec![Some(1000), Some(1000)]);
    p.synchronize_config(config(1, 500));
    assert_eq!(p.get_update_period(), 4);
    p.synchronize_config(config(1, 10));
    assert_eq!(p.get_update_period(), 16);
    p.synchronize_config(config(5, 0));
    assert_eq!(p.get_update_period(), 5);
    assert_eq!(animated_textures_update_period_default(), 1);
    assert_eq!(MapMaterialsProcessorConfig::default().animated_textures_update_period, 0);
}

#[test]
fn fixed_point_rounding() {
    assert_eq!(int_to_fixed16(-3), -196608);
    assert_eq!(fixed16_round_to_int(32768), 1);
    assert_eq!(fixed16_round_to_int(32767), 0);
    assert_eq!(fixed16_round_to_int(-32768), 0);
    assert_eq!(fixed16_round_to_int(-32769), -1);
    assert_eq!(fixed16_floor_to_int(-1), -1);
}

#[test]
fn heat_is_set_with_wrapping_and_kept_at_maximum() {
    let mut map = vec![0u8; 16 * 8];
    set_heat(&mut map, [4, 3], 17, 9, 50);
    assert_eq!(map[1 + 1 * 16], 50);
    set_heat(&mut map, [4, 3], 1, 1, 20);
    assert_eq!(map[17], 50);
    set_heat(&mut map, [4, 3], 1, 1, 80);
    assert_eq!(map[17], 80);
}

#[test]
fn heat_lines_follow_rounded_fixed_point_steps() {
    let log2 = [4, 4];
    assert_eq!(line_cell_addresses(log2, [[0, 0], [4, 2]]), vec![0, 16 + 1, 16 + 2, 32 + 3, 32 + 4]);
    assert_eq!(line_cell_addresses(log2, [[4, 2], [0, 0]]), vec![0, 16 + 1, 16 + 2, 32 + 3, 32 + 4]);
    // A steep line skips its first row.
    assert_eq!(line_cell_addresses(log2, [[0, 0], [1, 3]]), vec![16, 32, 48 + 1]);
    let mut map = vec![0u8; 256];
    draw_heat_line(&mut map, log2, [[0, 0], [4, 2]], 9);
    assert_eq!(map.iter().filter(|h| **h == 9).count(), 5);
    assert_eq!(map[18], 9);
}

#[test]
fn lightning_with_given_offsets() {
    let log2 = [4, 4];
    let mut map = vec![0u8; 256];
    draw_heat_lightning_with_offsets(&mut map, log2, [[0, 0], [3, 0]], 200, true, &vec![0, 0, 0, 0]);
    assert_eq!((map[0], map[1], map[2], map[3], map[4]), (200, 133, 66, 0, 0));
    let mut map = vec![0u8; 256];
    draw_heat_lightning_with_offsets(&mut map, log2, [[2, 2], [2, 2]], 77, true, &vec![0]);
    assert_eq!(map[2 + 2 * 16], 77);
    assert_eq!(map.iter().filter(|h| **h != 0).count(), 1);
}

#[test]
fn lightning_offsets_are_a_random_walk() {
    let mut rng = create_rand_engine();
    let offsets = lightning_offsets(&mut rng, 200);
    assert_eq!(offsets.len(), 200);
    let mut prev = 0i32;
    for o in &offsets {
        assert!((*o - prev).abs() <= 65536);
        prev = *o;
    }
    assert!(offsets.iter().enumerate().any(|(k, o)| *o != -65536 * (k as i32 + 1)));
    let mut map = vec![0u8; 256];
    draw_heat_lightning(&mut map, [4, 4], [[0, 0], [10, 3]], 255, false, &mut rng);
    assert!(map.iter().filter(|h| **h == 255).count() >= 1);
}

#[test]
fn long_lightning_across_the_widest_range() {
    // End points at the edges of the accepted range: 8191 cells, each drawn at full heat.
    let mut rng = create_rand_engine();
    let mut map = vec![0u8; 1 << 12];
    draw_heat_lightning(&mut map, [6, 6], [[-4096, -4096], [4095, 4095]], 200, false, &mut rng);
    assert!(map.iter().all(|h| *h == 0 || *h == 200));
    assert!(map.iter().filter(|h| **h == 200).count() >= 64);
}

#[test]
fn effect_sizes_and_texel_counts() {
    assert!(fire_resolution_valid([3, 3]));
    assert!(!fire_resolution_valid([2, 8]));
    assert!(!fire_resolution_valid([11, 11]));
    assert!(fire_resolution_valid([11, 10]));
    assert_eq!(fire_estimated_texel_count([4, 4]), 128 + 64);
    assert!(water_resolution_valid([2, 2]));
    assert!(!water_resolution_valid([1, 5]));
    assert_eq!(water_estimated_texel_count([3, 2]), 64);
    let palette = make_gray_palette();
    assert_eq!(palette.len(), 256);
    assert_eq!(palette[255].0, 0x00FF_FFFF);
    assert_eq!(palette[1].0, 0x0001_0101);
}

fn heat_map_sample() -> Vec<u8> {
    vec![0, 0, 0, 0, 0, 100, 0, 0, 40, 40, 40, 40, 0, 0, 0, 0]
}

#[test]
fn fast_heat_step_averages_cells_below() {
    let mut map = heat_map_sample();
    update_heat_map([4, 4], &mut map, MAX_HEAT_ATTENUATION, false);
    assert_eq!(map, vec![35, 35, 35, 10, 30, 30, 30, 30, 0, 0, 0, 0, 0, 0, 0, 0]);
}

#[test]
fn slow_heat_step_uses_updated_left_cell() {
    let mut map = heat_map_sample();
    update_heat_map([4, 4], &mut map, MAX_HEAT_ATTENUATION, true);
    assert_eq!(map, vec![0, 25, 6, 1, 35, 43, 20, 23, 30, 27, 26, 24, 0, 0, 0, 0]);
}

#[test]
fn heat_fades_with_attenuation() {
    let mut map = vec![0u8; 16];
    for v in map[4..8].iter_mut() {
        *v = 200;
    }
    // Half the neutral attenuation: the rows above keep half of the average.
    update_heat_map([4, 4], &mut map, MAX_HEAT_ATTENUATION / 2, false);
    assert_eq!(&map[0..4], &[75, 75, 75, 75]);
}

#[test]
fn emissive_texture_takes_palette_colors_of_heat() {
    let palette: Vec<Color32> = (0..256u32).map(|i| Color32(i * 3)).collect();
    let mut texture = TextureLite { size: [1, 1], pixels: vec![Color32(9)] };
    generate_emissive_texture_based_on_heat_map([2, 3], &vec![0, 1, 2, 3], &palette, &mut texture);
    assert_eq!(texture.size, [2, 3]);
    assert_eq!(
        texture.pixels,
        vec![Color32(0), Color32(3), Color32(6), Color32(9), Color32(0), Color32(0)]
    );
}
