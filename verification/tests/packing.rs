use bin_packer::bin::{Bin, RawBin};
use bin_packer::geometry::{check_inside, check_rectangle_intersection};
use bin_packer::item::{volume_of, Item, Rotation};
use bin_packer::order::Order;
use bin_packer::solver::{
    check_fits_at, check_intersection, check_item_in_bin_at_pivot, fill_bin,
    find_fitting_container, get_smallest_fitting_bin_for_item_vector, pack_item_to_bin,
    rotations_to_try, same_pivot, zero_counts,
};

fn item(name: &str, width: u32, depth: u32, height: u32, weight: u64) -> Item {
    Item {
        name: name.to_string(),
        width,
        depth,
        height,
        weight,
        orientable: Some(true),
        stackable: Some(true),
        rotation: "RT_WHD".to_string(),
        position: [0, 0, 0],
    }
}

fn bin(name: &str, width: u32, depth: u32, height: u32, max_weight: u64) -> Bin {
    RawBin { name: name.to_string(), depth, width, height, max_weight }.convert_to_bin()
}

fn placements(b: &Bin) -> Vec<(String, String, [u32; 3])> {
    b.packed_items.iter().map(|i| (i.name.clone(), i.rotation.clone(), i.position)).collect()
}

#[test]
fn rotated_dimension_of_each_label() {
    let it = item("a", 1, 2, 3, 1);
    assert_eq!(it.get_rotated_dimension("RT_WHD"), [1, 3, 2]);
    assert_eq!(it.get_rotated_dimension("RT_HWD"), [3, 1, 2]);
    assert_eq!(it.get_rotated_dimension("RT_HDW"), [3, 2, 1]);
    assert_eq!(it.get_rotated_dimension("RT_DHW"), [2, 3, 1]);
    assert_eq!(it.get_rotated_dimension("RT_DWH"), [2, 1, 3]);
    assert_eq!(it.get_rotated_dimension("RT_WDH"), [1, 2, 3]);
}

#[test]
fn unknown_label_falls_back_to_identity() {
    let it = item("a", 1, 2, 3, 1);
    assert_eq!(it.get_rotated_dimension("RT_XYZ"), [1, 3, 2]);
    assert_eq!(it.get_rotated_dimension(""), [1, 3, 2]);
    assert_eq!(it.get_rotated_dimension("rt_hwd"), [1, 3, 2]);
    assert_eq!(Rotation::from_label("nonsense"), Rotation::WHD);
}

#[test]
fn labels_round_trip() {
    let all = [
        (Rotation::WHD, "RT_WHD"),
        (Rotation::HWD, "RT_HWD"),
        (Rotation::HDW, "RT_HDW"),
        (Rotation::DHW, "RT_DHW"),
        (Rotation::DWH, "RT_DWH"),
        (Rotation::WDH, "RT_WDH"),
    ];
    for (r, l) in all {
        assert_eq!(r.label(), l);
        assert_eq!(Rotation::from_label(l), r);
    }
}

#[test]
fn rotation_preference_order() {
    assert_eq!(
        rotations_to_try(true),
        vec![
            Rotation::WHD,
            Rotation::HWD,
            Rotation::HDW,
            Rotation::DHW,
            Rotation::DWH,
            Rotation::WDH
        ]
    );
    assert_eq!(rotations_to_try(false), vec![Rotation::WHD, Rotation::DHW]);
}

#[test]
fn volumes_are_products() {
    assert_eq!(item("a", 2, 3, 4, 1).get_volume(), 24);
    assert_eq!(bin("b", 10, 10, 10, 1).get_volume(), 1000);
    assert_eq!(volume_of(u32::MAX, u32::MAX, u32::MAX), (u32::MAX as u128).pow(3));
    assert_eq!(volume_of(0, 5, 5), 0);
}

#[test]
fn touching_boxes_do_not_intersect() {
    let mut placed = item("a", 5, 5, 5, 1);
    placed.position = [0, 0, 0];
    assert!(!check_intersection(&placed, &[5, 5, 5], &[5, 0, 0]));
    assert!(!check_intersection(&placed, &[5, 5, 5], &[0, 5, 0]));
    assert!(!check_intersection(&placed, &[5, 5, 5], &[0, 0, 5]));
}

#[test]
fn overlapping_boxes_intersect() {
    let mut placed = item("a", 5, 5, 5, 1);
    placed.position = [0, 0, 0];
    assert!(check_intersection(&placed, &[5, 5, 5], &[4, 4, 4]));
    assert!(check_intersection(&placed, &[1, 1, 1], &[2, 2, 2]));
    assert!(check_intersection(&placed, &[5, 5, 5], &[0, 0, 0]));
}

#[test]
fn overlap_on_two_planes_only_is_no_intersection() {
    let mut placed = item("a", 5, 5, 5, 1);
    placed.position = [0, 0, 0];
    // overlaps along width and height, but is behind along depth
    assert!(!check_intersection(&placed, &[5, 5, 5], &[1, 1, 5]));
    assert!(check_rectangle_intersection(&[5, 5, 5], &[0, 0, 0], &[5, 5, 5], &[1, 1, 5], 0, 1));
    assert!(!check_rectangle_intersection(&[5, 5, 5], &[0, 0, 0], &[5, 5, 5], &[1, 1, 5], 1, 2));
    assert!(!check_rectangle_intersection(&[5, 5, 5], &[0, 0, 0], &[5, 5, 5], &[1, 1, 5], 0, 2));
}

#[test]
fn intersection_uses_the_rotation_of_the_packed_item() {
    let mut placed = item("a", 2, 8, 4, 1);
    placed.rotation = "RT_DWH".to_string();
    placed.position = [0, 0, 0];
    // extents are [8, 2, 4] along width, height, depth
    assert!(check_intersection(&placed, &[1, 1, 1], &[7, 1, 3]));
    assert!(!check_intersection(&placed, &[1, 1, 1], &[7, 2, 3]));
    assert!(!check_intersection(&placed, &[1, 1, 1], &[7, 1, 4]));
}

#[test]
fn inside_accepts_the_boundary() {
    assert!(check_inside(10, 10, 10, &[5, 5, 5], &[5, 5, 5]));
    assert!(!check_inside(10, 10, 10, &[5, 5, 6], &[5, 5, 5]));
    assert!(!check_inside(10, 10, 10, &[6, 5, 5], &[5, 5, 5]));
    assert!(!check_inside(10, 10, 10, &[5, 6, 5], &[5, 5, 5]));
    assert!(!check_inside(10, 10, 10, &[1, 1, 1], &[u32::MAX, 0, 0]));
}

#[test]
fn same_pivot_compares_all_coordinates() {
    assert!(same_pivot(&[1, 2, 3], &[1, 2, 3]));
    assert!(!same_pivot(&[1, 2, 3], &[1, 2, 4]));
    assert!(!same_pivot(&[1, 2, 3], &[0, 2, 3]));
}

#[test]
fn single_item_is_placed_at_the_origin() {
    let mut bins = vec![bin("box", 10, 10, 10, 1000)];
    let mut it = item("a", 5, 5, 5, 10);
    it.orientable = Some(false);
    it.stackable = Some(true);
    let found = get_smallest_fitting_bin_for_item_vector(&vec![it], &mut bins, 10, 125).unwrap();
    assert_eq!(found.name, "box");
    assert_eq!(found.packed_items.len(), 1);
    assert_eq!(found.packed_items[0].position, [0, 0, 0]);
    assert_eq!(found.packed_items[0].rotation, "RT_WHD");
    assert_eq!(found.packed_items[0].name, "a");
}

#[test]
fn too_small_container_is_passed_over() {
    let items = vec![item("a", 5, 5, 5, 10), item("b", 5, 5, 5, 10)];
    let mut bins = vec![bin("small", 6, 6, 6, 1000)];
    assert!(get_smallest_fitting_bin_for_item_vector(&items, &mut bins, 20, 250).is_none());
    assert!(bins[0].packed_items.is_empty());

    let mut bins = vec![bin("small", 6, 6, 6, 1000), bin("large", 10, 10, 10, 1000)];
    let found = get_smallest_fitting_bin_for_item_vector(&items, &mut bins, 20, 250).unwrap();
    assert_eq!(found.name, "large");
    assert_eq!(found.packed_items.len(), 2);
}

#[test]
fn too_light_container_is_passed_over() {
    let items = vec![item("a", 1, 1, 1, 10)];
    let mut bins = vec![bin("weak", 10, 10, 10, 9), bin("strong", 10, 10, 10, 10)];
    let found = get_smallest_fitting_bin_for_item_vector(&items, &mut bins, 10, 1).unwrap();
    assert_eq!(found.name, "strong");
    assert!(bins[0].packed_items.is_empty());
}

#[test]
fn first_match_wins_over_later_matches() {
    let items = vec![item("a", 2, 2, 2, 1)];
    let mut bins = vec![bin("first", 5, 5, 5, 10), bin("second", 5, 5, 5, 10)];
    let found = get_smallest_fitting_bin_for_item_vector(&items, &mut bins, 1, 8).unwrap();
    assert_eq!(found.name, "first");
    assert_eq!(found.packed_items.len(), 1);
    assert!(bins[0].packed_items.is_empty());
    assert!(bins[1].packed_items.is_empty());
    let (again, counts) = find_fitting_container(&items, &bins, 1, 8);
    assert_eq!(again.unwrap().name, "first");
    assert_eq!(counts, vec![1, 0]);
}

#[test]
fn no_container_gives_none() {
    let items = vec![item("a", 20, 1, 1, 1)];
    let mut bins = vec![bin("x", 5, 5, 5, 10), bin("y", 6, 6, 6, 10)];
    assert!(get_smallest_fitting_bin_for_item_vector(&items, &mut bins, 1, 20).is_none());
    let mut none: Vec<Bin> = Vec::new();
    assert!(get_smallest_fitting_bin_for_item_vector(&items, &mut none, 1, 20).is_none());
}

#[test]
fn no_items_match_the_first_admissible_container() {
    let mut bins = vec![bin("x", 5, 5, 5, 10)];
    let found = get_smallest_fitting_bin_for_item_vector(&Vec::new(), &mut bins, 0, 0).unwrap();
    assert_eq!(found.name, "x");
    assert!(found.packed_items.is_empty());
}

#[test]
fn attempt_stops_at_the_first_item_that_fails() {
    let items = vec![item("a", 4, 4, 4, 1), item("long", 9, 1, 1, 1), item("c", 1, 1, 1, 1)];
    let mut b = bin("x", 4, 4, 4, 10);
    fill_bin(&mut b, &items);
    assert_eq!(placements(&b), vec![("a".to_string(), "RT_WHD".to_string(), [0, 0, 0])]);
}

#[test]
fn pivots_after_a_stackable_placement() {
    let mut b = bin("x", 10, 10, 10, 100);
    let it = item("a", 5, 4, 3, 1);
    let pivots = pack_item_to_bin(&mut b, &it, &[[0, 0, 0]], true, true).unwrap();
    // extents under the first rotation are [5, 3, 4]
    assert_eq!(pivots, vec![[5, 0, 0], [0, 0, 4], [0, 3, 0]]);
    assert_eq!(b.packed_items[0].rotation, "RT_WHD");
    assert_eq!(b.packed_items[0].position, [0, 0, 0]);
}

#[test]
fn pivots_after_a_placement_that_is_not_stackable() {
    let mut b = bin("x", 10, 10, 10, 100);
    let it = item("a", 5, 4, 3, 1);
    let pivots = pack_item_to_bin(&mut b, &it, &[[0, 0, 0]], false, true).unwrap();
    assert_eq!(pivots, vec![[5, 0, 0], [0, 0, 4]]);
}

#[test]
fn new_pivots_come_before_carried_over_ones() {
    let mut b = bin("x", 10, 10, 10, 100);
    let it = item("a", 2, 2, 2, 1);
    let open = [[0, 0, 0], [7, 7, 7], [0, 0, 0], [3, 3, 3]];
    let pivots = pack_item_to_bin(&mut b, &it, &open, true, true).unwrap();
    assert_eq!(pivots, vec![[2, 0, 0], [0, 0, 2], [0, 2, 0], [7, 7, 7], [3, 3, 3]]);
}

#[test]
fn second_item_goes_to_the_first_free_pivot() {
    let mut b = bin("x", 10, 10, 10, 100);
    let first = item("a", 5, 5, 5, 1);
    let second = item("b", 5, 5, 5, 1);
    let pivots = pack_item_to_bin(&mut b, &first, &[[0, 0, 0]], true, true).unwrap();
    let pivots = pack_item_to_bin(&mut b, &second, &pivots, true, true).unwrap();
    assert_eq!(b.packed_items[1].position, [5, 0, 0]);
    assert_eq!(pivots, vec![[10, 0, 0], [5, 0, 5], [5, 5, 0], [0, 0, 5], [0, 5, 0]]);
}

#[test]
fn occupied_pivot_is_skipped() {
    let mut b = bin("x", 10, 10, 10, 100);
    let first = item("a", 5, 5, 5, 1);
    pack_item_to_bin(&mut b, &first, &[[0, 0, 0]], true, true).unwrap();
    let second = item("b", 5, 5, 5, 1);
    let pivots = pack_item_to_bin(&mut b, &second, &[[0, 0, 0], [0, 0, 5]], true, true).unwrap();
    assert_eq!(b.packed_items[1].position, [0, 0, 5]);
    assert_eq!(pivots, vec![[5, 0, 5], [0, 0, 10], [0, 5, 5], [0, 0, 0]]);
}

#[test]
fn first_fitting_rotation_wins() {
    // container: width 4, height 10, depth 4
    let b = bin("x", 4, 4, 10, 100);
    // item: width 10, depth 4, height 4
    let it = item("a", 10, 4, 4, 1);
    assert_eq!(check_item_in_bin_at_pivot(&b, &it, &[0, 0, 0], true), Some(Rotation::HWD));
    assert_eq!(check_item_in_bin_at_pivot(&b, &it, &[0, 0, 0], false), None);
    assert!(!check_fits_at(&b, &it, &[0, 0, 0], Rotation::WHD));
    assert!(check_fits_at(&b, &it, &[0, 0, 0], Rotation::HWD));
    assert_eq!(check_item_in_bin_at_pivot(&b, &it, &[1, 0, 0], true), None);
}

#[test]
fn fixed_height_rotations_only_when_not_orientable() {
    // container: width 4, height 10, depth 4; the item fits only with
    // its width along the height axis, which needs a free rotation
    let mut b = bin("x", 4, 4, 10, 100);
    let it = item("a", 10, 4, 4, 1);
    assert!(pack_item_to_bin(&mut b, &it, &[[0, 0, 0]], true, false).is_none());
    assert!(b.packed_items.is_empty());
    let pivots = pack_item_to_bin(&mut b, &it, &[[0, 0, 0]], true, true).unwrap();
    assert_eq!(b.packed_items[0].rotation, "RT_HWD");
    assert_eq!(pivots, vec![[4, 0, 0], [0, 0, 4], [0, 10, 0]]);
}

#[test]
fn item_that_is_not_orientable_swaps_width_and_depth_only() {
    // container: width 4, height 10, depth 10
    let mut b = bin("x", 4, 10, 10, 1000);
    // item: width 6, depth 4, height 3
    let it = item("a", 6, 4, 3, 1);
    let pivots = pack_item_to_bin(&mut b, &it, &[[0, 0, 0]], true, false).unwrap();
    assert_eq!(pivots, vec![[4, 0, 0], [0, 0, 6], [0, 3, 0]]);
    let packed = &b.packed_items[0];
    assert_eq!(packed.rotation, "RT_DHW");
    assert_eq!(packed.position, [0, 0, 0]);
    assert_eq!(packed.get_rotated_dimension(&packed.rotation), [4, 3, 6]);
}

#[test]
fn search_leaves_the_given_containers_as_they_were() {
    let items = vec![item("a", 4, 4, 4, 1), item("long", 9, 1, 1, 1)];
    let mut bins = vec![bin("tried", 4, 5, 4, 10), bin("match", 10, 10, 10, 10)];
    let found = get_smallest_fitting_bin_for_item_vector(&items, &mut bins, 2, 73).unwrap();
    assert_eq!(found.name, "match");
    assert_eq!(found.packed_items.len(), 2);
    assert_eq!(bins.len(), 2);
    assert_eq!(bins[0].name, "tried");
    assert_eq!(bins[1].name, "match");
    assert!(bins[0].packed_items.is_empty());
    assert!(bins[1].packed_items.is_empty());
    let (_, counts) = find_fitting_container(&items, &bins, 2, 73);
    assert_eq!(counts, vec![1, 2]);
    assert_eq!(zero_counts(3), vec![0, 0, 0]);
}

#[test]
fn item_over_the_weight_limit_is_refused() {
    let mut b = bin("x", 10, 10, 10, 10);
    let heavy = item("a", 1, 1, 1, 11);
    assert!(pack_item_to_bin(&mut b, &heavy, &[[0, 0, 0]], true, true).is_none());
    assert!(b.packed_items.is_empty());
    let exact = item("b", 1, 1, 1, 10);
    assert!(pack_item_to_bin(&mut b, &exact, &[[0, 0, 0]], true, true).is_some());
    let more = item("c", 1, 1, 1, 1);
    assert!(pack_item_to_bin(&mut b, &more, &[[1, 0, 0]], true, true).is_none());
    assert_eq!(b.packed_items.len(), 1);
}

#[test]
fn item_over_the_volume_limit_is_refused() {
    let mut b = bin("x", 2, 2, 2, 100);
    let big = item("a", 3, 3, 1, 1);
    assert!(pack_item_to_bin(&mut b, &big, &[[0, 0, 0]], true, true).is_none());
    let exact = item("b", 2, 2, 2, 1);
    assert!(pack_item_to_bin(&mut b, &exact, &[[0, 0, 0]], true, true).is_some());
}

#[test]
fn no_open_pivot_gives_none() {
    let mut b = bin("x", 10, 10, 10, 100);
    let it = item("a", 1, 1, 1, 1);
    assert!(pack_item_to_bin(&mut b, &it, &[], true, true).is_none());
}

#[test]
fn absent_flags_default_to_true() {
    let mut it = item("a", 10, 4, 4, 1);
    it.orientable = None;
    it.stackable = None;
    // fits only under a rotation that is not tried for an item that is
    // not orientable
    let mut b = bin("x", 4, 4, 10, 100);
    assert_eq!(fill_bin(&mut b, &vec![it]), 1);
    assert_eq!(placements(&b), vec![("a".to_string(), "RT_HWD".to_string(), [0, 0, 0])]);
}

#[test]
fn packed_items_stay_inside_and_apart() {
    let items: Vec<Item> = (0..8).map(|i| item(&format!("i{}", i), 5, 5, 5, 1)).collect();
    let mut bins = vec![bin("x", 10, 10, 10, 8)];
    let found = get_smallest_fitting_bin_for_item_vector(&items, &mut bins, 8, 1000).unwrap();
    assert_eq!(found.packed_items.len(), 8);
    assert_eq!(found.get_packed_items_volume(), 1000);
    assert_eq!(found.get_packed_items_weight(), 8);
    for (n, a) in found.packed_items.iter().enumerate() {
        let d = a.get_rotated_dimension(&a.rotation);
        assert!(check_inside(found.width, found.height, found.depth, &d, &a.position));
        for b in found.packed_items.iter().skip(n + 1) {
            let e = b.get_rotated_dimension(&b.rotation);
            assert!(!check_intersection(a, &e, &b.position));
        }
    }
}

#[test]
fn ninth_cube_does_not_fit() {
    let items: Vec<Item> = (0..9).map(|i| item(&format!("i{}", i), 5, 5, 5, 1)).collect();
    let mut bins = vec![bin("x", 10, 10, 11, 100)];
    assert!(get_smallest_fitting_bin_for_item_vector(&items, &mut bins, 9, 1100).is_none());
    assert!(bins[0].packed_items.is_empty());
    let (found, counts) = find_fitting_container(&items, &bins, 9, 1100);
    assert!(found.is_none());
    assert_eq!(counts, vec![8]);
}

#[test]
fn search_is_repeatable() {
    let items = vec![
        item("a", 6, 3, 2, 5),
        item("b", 4, 4, 4, 4),
        item("c", 2, 7, 1, 3),
        item("d", 3, 3, 3, 2),
    ];
    let mut first = vec![bin("s", 5, 5, 5, 100), bin("l", 10, 10, 10, 100)];
    let mut second = vec![bin("s", 5, 5, 5, 100), bin("l", 10, 10, 10, 100)];
    let one = get_smallest_fitting_bin_for_item_vector(&items, &mut first, 14, 150).unwrap();
    let two = get_smallest_fitting_bin_for_item_vector(&items, &mut second, 14, 150).unwrap();
    assert_eq!(one.name, two.name);
    assert_eq!(placements(&one), placements(&two));
    assert_eq!(one.packed_items.len(), 4);
}

#[test]
fn order_totals() {
    let order = Order {
        name: "o".to_string(),
        items: vec![item("a", 2, 3, 4, 5), item("b", 1, 1, 1, 7)],
    };
    assert_eq!(order.get_order_volume(), 25);
    assert_eq!(order.get_order_weight(), 12);
    let empty = Order { name: "e".to_string(), items: Vec::new() };
    assert_eq!(empty.get_order_volume(), 0);
    assert_eq!(empty.get_order_weight(), 0);
}

#[test]
fn duplicates_are_equal_field_by_field() {
    let mut b = bin("x", 10, 10, 10, 100);
    pack_item_to_bin(&mut b, &item("a", 1, 2, 3, 4), &[[0, 0, 0]], true, true).unwrap();
    let c = b.duplicate();
    assert_eq!(c.name, "x");
    assert_eq!((c.width, c.depth, c.height, c.max_weight), (10, 10, 10, 100));
    assert_eq!(placements(&c), placements(&b));
    let i = b.packed_items[0].duplicate();
    assert_eq!((i.width, i.depth, i.height, i.weight), (1, 2, 3, 4));
    assert_eq!(i.orientable, Some(true));
}

#[test]
fn bins_sort_by_weight_limit_and_keep_ties_in_order() {
    let mut bins = vec![
        bin("c", 1, 1, 1, 30),
        bin("a1", 1, 1, 1, 10),
        bin("b", 1, 1, 1, 20),
        bin("a2", 1, 1, 1, 10),
    ];
    bin_packer::sorting::sort_bin_list_by_weight(&mut bins, true);
    let names: Vec<&str> = bins.iter().map(|b| b.name.as_str()).collect();
    assert_eq!(names, vec!["a1", "a2", "b", "c"]);
    bin_packer::sorting::sort_bin_list_by_weight(&mut bins, false);
    let names: Vec<&str> = bins.iter().map(|b| b.name.as_str()).collect();
    assert_eq!(names, vec!["c", "b", "a1", "a2"]);
    let mut none: Vec<Bin> = Vec::new();
    bin_packer::sorting::sort_bin_list_by_weight(&mut none, true);
    assert!(none.is_empty());
}

#[test]
fn items_sort_from_heaviest_and_keep_ties_in_order() {
    let mut items = vec![
        item("l", 1, 1, 1, 1),
        item("h1", 1, 1, 1, 9),
        item("m", 1, 1, 1, 5),
        item("h2", 1, 1, 1, 9),
    ];
    bin_packer::sorting::sort_item_list_by_weight(&mut items);
    let names: Vec<&str> = items.iter().map(|i| i.name.as_str()).collect();
    assert_eq!(names, vec!["h1", "h2", "m", "l"]);
    assert!(bin_packer::sorting::stands_after(2, 1, true));
    assert!(!bin_packer::sorting::stands_after(1, 1, true));
    assert!(bin_packer::sorting::stands_after(1, 2, false));
}

#[test]
fn decimal_numerals() {
    assert_eq!(bin_packer::order::decimal_string(0), "0");
    assert_eq!(bin_packer::order::decimal_string(7), "7");
    assert_eq!(bin_packer::order::decimal_string(10), "10");
    assert_eq!(bin_packer::order::decimal_string(1234567890), "1234567890");
    assert_eq!(bin_packer::order::decimal_string(4294967295), "4294967295");
    assert_eq!(bin_packer::order::decimal_string(u64::MAX), "18446744073709551615");
    assert_eq!(bin_packer::order::digit_string(9), "9");
}

#[test]
fn order_lines_expand_into_units() {
    let raw = bin_packer::order::RawOrder {
        name: "o1".to_string(),
        items: vec![
            bin_packer::item::RawItem {
                name: "chair".to_string(),
                quantity: 2,
                depth: 3,
                width: 2,
                height: 4,
                weight: 5,
            },
            bin_packer::item::RawItem {
                name: "none".to_string(),
                quantity: 0,
                depth: 1,
                width: 1,
                height: 1,
                weight: 1,
            },
            bin_packer::item::RawItem {
                name: "less".to_string(),
                quantity: -3,
                depth: 1,
                width: 1,
                height: 1,
                weight: 1,
            },
            bin_packer::item::RawItem {
                name: "desk".to_string(),
                quantity: 1,
                depth: 6,
                width: 7,
                height: 8,
                weight: 9,
            },
        ],
        orientable: Some(false),
        stackable: None,
    };
    let order = raw.create_order_from_raw_order();
    assert_eq!(order.name, "o1");
    let names: Vec<&str> = order.items.iter().map(|i| i.name.as_str()).collect();
    assert_eq!(names, vec!["o1@chair@0", "o1@chair@1", "o1@desk@0"]);
    let first = &order.items[0];
    assert_eq!((first.width, first.depth, first.height, first.weight), (2, 3, 4, 5));
    assert_eq!(first.orientable, Some(false));
    assert_eq!(first.stackable, None);
    assert_eq!(first.rotation, "RT_WHD");
    assert_eq!(first.position, [0, 0, 0]);
    assert_eq!(order.get_order_volume(), 2 * 24 + 336);
    assert_eq!(order.get_order_weight(), 19);
}

#[test]
fn order_list_goes_to_the_smallest_container_that_takes_it() {
    let raw = |name: &str, quantity: i32, side: u32, weight: u64| bin_packer::item::RawItem {
        name: name.to_string(),
        quantity,
        depth: side,
        width: side,
        height: side,
        weight,
    };
    let orders = vec![
        bin_packer::order::RawOrder {
            name: "o1".to_string(),
            items: vec![raw("small", 2, 2, 1), raw("big", 1, 5, 8)],
            orientable: None,
            stackable: None,
        },
        bin_packer::order::RawOrder {
            name: "o2".to_string(),
            items: vec![raw("mid", 1, 3, 4)],
            orientable: Some(true),
            stackable: Some(true),
        },
    ];
    let bins = vec![
        RawBin { name: "huge".to_string(), depth: 20, width: 20, height: 20, max_weight: 100 },
        RawBin { name: "weak".to_string(), depth: 20, width: 20, height: 20, max_weight: 13 },
        RawBin { name: "tiny".to_string(), depth: 5, width: 5, height: 5, max_weight: 20 },
        RawBin { name: "right".to_string(), depth: 8, width: 8, height: 8, max_weight: 50 },
    ];
    let (found, reports) =
        bin_packer::planner::get_smallest_fitting_bin_for_order_list(&orders, &bins);
    let found = found.unwrap();
    assert_eq!(reports, vec!["2-0"]);
    assert_eq!(found.name, "right");
    assert_eq!(
        placements(&found),
        vec![
            ("o1@big@0".to_string(), "RT_WHD".to_string(), [0, 0, 0]),
            ("o2@mid@0".to_string(), "RT_WHD".to_string(), [5, 0, 0]),
            ("o1@small@0".to_string(), "RT_WHD".to_string(), [5, 0, 3]),
            ("o1@small@1".to_string(), "RT_WHD".to_string(), [5, 0, 5]),
        ]
    );
    assert_eq!(bin_packer::planner::checked_total_volume(&found.packed_items), Some(168));
    let (found, reports) =
        bin_packer::planner::get_smallest_fitting_bin_for_order_list(&orders, &Vec::new());
    assert!(found.is_none());
    assert!(reports.is_empty());
}

#[test]
fn total_volume_beyond_the_machine_range_is_reported() {
    let big = item("x", u32::MAX, u32::MAX, u32::MAX, 1);
    let many: Vec<Item> = (0..5).map(|_| big.duplicate()).collect();
    assert!(bin_packer::planner::checked_total_volume(&many).is_some());
    let orders = vec![
        Order { name: "a".to_string(), items: vec![item("a", 1, 1, 1, 1)] },
        Order { name: "b".to_string(), items: vec![] },
        Order { name: "c".to_string(), items: vec![item("c1", 1, 1, 1, 1), item("c2", 1, 1, 1, 1)] },
    ];
    let all = bin_packer::planner::collect_items(&orders);
    let names: Vec<&str> = all.iter().map(|i| i.name.as_str()).collect();
    assert_eq!(names, vec!["a", "c1", "c2"]);
}

#[test]
fn progress_is_reported_for_every_tenth_item() {
    let line = bin_packer::item::RawItem {
        name: "unit".to_string(),
        quantity: 21,
        depth: 1,
        width: 1,
        height: 1,
        weight: 1,
    };
    let orders = vec![bin_packer::order::RawOrder {
        name: "o".to_string(),
        items: vec![line],
        orientable: None,
        stackable: None,
    }];
    let bins = vec![
        RawBin { name: "flat".to_string(), depth: 1, width: 30, height: 1, max_weight: 40 },
        RawBin { name: "short".to_string(), depth: 1, width: 21, height: 1, max_weight: 30 },
        RawBin { name: "light".to_string(), depth: 9, width: 9, height: 9, max_weight: 20 },
    ];
    let (found, reports) =
        bin_packer::planner::get_smallest_fitting_bin_for_order_list(&orders, &bins);
    // by weight limit: light (passed over), short, flat
    assert_eq!(found.unwrap().name, "short");
    assert_eq!(reports, vec!["1-0", "1-10", "1-20"]);

    let mut partly = bin("p", 3, 1, 1, 100);
    let items: Vec<Item> = (0..5).map(|i| item(&format!("i{}", i), 1, 1, 1, 1)).collect();
    assert_eq!(fill_bin(&mut partly, &items), 3);
    assert_eq!(partly.packed_items.len(), 3);
    assert_eq!(bin_packer::planner::progress_reports(&vec![0, 3]), vec!["1-0"]);
    assert_eq!(
        bin_packer::planner::progress_reports(&vec![11, 0, 1]),
        vec!["0-0", "0-10", "2-0"]
    );
    assert!(bin_packer::planner::progress_reports(&Vec::new()).is_empty());
}
