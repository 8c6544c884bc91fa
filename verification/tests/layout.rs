use wav_utils::layout::{deinterleave, grow, has_room, interleave, overlay};
use wav_utils::queue::{
    append_block, append_hop, drop_front, is_uniform, load_hop, silence, take_all,
};

#[test]
fn interleaving_goes_frame_by_frame() {
    let x = vec![vec![1i16, 2, 3], vec![10, 20, 30]];
    assert_eq!(interleave(&x, 3), vec![1, 10, 2, 20, 3, 30]);
    assert_eq!(interleave(&x, 2), vec![1, 10, 2, 20]);
    assert_eq!(interleave(&x, 0), Vec::<i16>::new());
}

#[test]
fn interleaving_looks_at_the_first_frames_only() {
    let x = vec![vec![1i16, 2], vec![10, 20, 30, 40]];
    assert_eq!(interleave(&x, 2), vec![1, 10, 2, 20]);
}

#[test]
fn deinterleaving_undoes_interleaving() {
    let x = vec![vec![0.5f32, 0.25, -1.0], vec![1.0, 0.0, 0.125]];
    assert_eq!(deinterleave(&interleave(&x, 3), 2), x);
}

#[test]
fn interleaving_undoes_deinterleaving() {
    let s = vec![1, 2, 3, 4, 5, 6, 7, 8, 9];
    let x = deinterleave(&s, 3);
    assert_eq!(x, vec![vec![1, 4, 7], vec![2, 5, 8], vec![3, 6, 9]]);
    assert_eq!(interleave(&x, 3), s);
}

#[test]
fn unfinished_frame_makes_first_channels_longer() {
    assert_eq!(deinterleave(&[1, 2, 3, 4, 5], 2), vec![vec![1, 3, 5], vec![2, 4]]);
    assert_eq!(deinterleave(&[1, 2], 3), vec![vec![1], vec![2], vec![]]);
    assert_eq!(deinterleave::<i16>(&[], 2), vec![vec![], vec![]]);
}

#[test]
fn two_blocks_interleave_as_one() {
    let a = vec![vec![1i16, 2], vec![10, 20]];
    let b = vec![vec![3i16], vec![30]];
    let whole = vec![vec![1i16, 2, 3], vec![10, 20, 30]];
    let mut streamed = interleave(&a, 2);
    streamed.extend(interleave(&b, 1));
    assert_eq!(streamed, interleave(&whole, 3));
}

#[test]
fn reading_in_two_parts_gives_the_same_channels() {
    let s: Vec<i16> = (0..11).collect();
    let mut parts = deinterleave(&s[..6], 2);
    append_block(&mut parts, deinterleave(&s[6..], 2));
    assert_eq!(parts, deinterleave(&s, 2));
}

#[test]
fn growing_fills_short_channels_only() {
    let mut x = vec![vec![1i16], vec![1, 2, 3, 4], vec![]];
    grow(&mut x, 3, 9);
    assert_eq!(x, vec![vec![1, 9, 9], vec![1, 2, 3, 4], vec![9, 9, 9]]);
}

#[test]
fn overlay_leaves_the_rest_untouched() {
    let mut x = silence(2, 3, 7i16);
    overlay(&mut x, &[1, 2, 3, 4, 5], 3, 2);
    assert_eq!(x, vec![vec![1, 3, 7], vec![2, 7, 7]]);
}

#[test]
fn queue_grows_at_the_end_and_drains_at_the_front() {
    let mut q = vec![vec![1], vec![10]];
    append_block(&mut q, vec![vec![2, 3], vec![20, 30]]);
    assert_eq!(q, vec![vec![1, 2, 3], vec![10, 20, 30]]);
    drop_front(&mut q, 2);
    assert_eq!(q, vec![vec![3], vec![30]]);
    assert_eq!(take_all(&mut q), vec![vec![3], vec![30]]);
    assert_eq!(q, vec![Vec::<i32>::new(), vec![]]);
}

#[test]
fn hop_is_filled_up_with_silence() {
    let q = vec![vec![1, 2, 3, 4], vec![10, 20, 30, 40]];
    assert_eq!(load_hop(&q, 1, 3, 3, 0), vec![2, 3, 4, 20, 30, 40]);
    assert_eq!(load_hop(&q, 3, 1, 3, 0), vec![4, 0, 0, 40, 0, 0]);
}

#[test]
fn front_of_a_hop_is_kept() {
    let mut q = vec![vec![0], vec![5]];
    append_hop(&mut q, &[1, 2, 3, 10, 20, 30], 2, 3);
    assert_eq!(q, vec![vec![0, 1, 2], vec![5, 10, 20]]);
}

#[test]
fn uniform_blocks_have_equal_channels() {
    assert!(is_uniform(&[vec![1, 2], vec![3, 4]], 2));
    assert!(!is_uniform(&[vec![1, 2], vec![3]], 2));
    assert!(!is_uniform(&[vec![1, 2], vec![3, 4]], 3));
    assert!(is_uniform::<i16>(&[], 0));
}

#[test]
fn room_is_that_of_the_shortest_channel() {
    assert!(has_room(&[vec![1, 2], vec![3, 4, 5]], 2));
    assert!(!has_room(&[vec![1, 2], vec![3, 4, 5]], 3));
    assert!(has_room::<i16>(&[], 7));
}

#[test]
fn overlay_leaves_further_channels_alone() {
    let mut x = silence(3, 2, 7i16);
    overlay(&mut x, &[1, 2, 3, 4], 4, 2);
    assert_eq!(x, vec![vec![1, 3], vec![2, 4], vec![7, 7]]);
}
