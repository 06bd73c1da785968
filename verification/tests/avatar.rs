use daily_challenges::rng::Generator;
use daily_challenges::avatar::{
    draw_inputs, name_seed, pallete_from_inputs,
    blow_up, color_pairs, paint_square, sel_u8_from, tessle, Avatar, BoundedMask, Color,
    HorizMirrorPattern, Pattern, Position, SquarePosition, VertMirrorPattern, WindmillPattern,
};
use rand::{RngCore, SeedableRng};
use std::hash::{Hash, Hasher};
use rand_isaac::IsaacRng;

fn c(r: u8, g: u8, b: u8) -> Color {
    Color { r, g, b }
}

fn numbered(n: usize) -> Vec<Color> {
    (0..n).map(|i| c(i as u8, 100 + i as u8, 200)).collect()
}

#[test]
fn selecting_bytes() {
    assert_eq!(sel_u8_from(0xABCDEF, 16), 0xAB);
    assert_eq!(sel_u8_from(0xABCDEF, 8), 0xCD);
    assert_eq!(sel_u8_from(0x1234, 0), 0x34);
    assert_eq!(sel_u8_from(0x1234, 4), 0x23);
    assert_eq!(sel_u8_from(usize::MAX, usize::BITS as usize - 4), 0x0F);
}

#[test]
fn colors_from_words() {
    assert_eq!(Color::new("RGB888", 0xEDB231), c(0xED, 0xB2, 0x31));
    assert_eq!(Color::new("rgb888", 0x12EDB231), c(0xED, 0xB2, 0x31));
    assert_eq!(Color::new("Rgb888", 0xEDB231), c(0, 0, 0));
    assert_eq!(Color::new("", 0xEDB231), c(0, 0, 0));
    assert_eq!(Color::new("rgb8888", 0xEDB231), c(0, 0, 0));
}

#[test]
fn bounded_mask_selects_by_bounds() {
    let m = BoundedMask {
        data: vec![c(1, 1, 1), c(2, 2, 2), c(3, 3, 3)],
        bounds: vec![100, 50],
        mask: 0xFF,
        offset: 8,
    };
    assert_eq!(m.select(150 << 8), c(1, 1, 1));
    assert_eq!(m.select(100 << 8), c(1, 1, 1));
    assert_eq!(m.select((70 << 8) | 0xFF), c(2, 2, 2));
    assert_eq!(m.select(50 << 8), c(2, 2, 2));
    assert_eq!(m.select(10 << 8), c(3, 3, 3));
    assert_eq!(m.select((0x1_0000 + 10) << 8), c(3, 3, 3));
}

#[test]
fn bounded_mask_from_random_choice() {
    let set = vec![
        vec![c(1, 0, 0), c(2, 0, 0), c(3, 0, 0)],
        vec![c(0, 1, 0), c(0, 2, 0)],
    ];
    for seed in 0..20u64 {
        let mut rng = Generator::seeded(seed as u32, 7);
        let m = BoundedMask::new(&mut rng, &set, 4, 3);
        assert_eq!(m.mask, 15);
        assert_eq!(m.offset, 3);
        assert!(set.contains(&m.data));
        assert_eq!(m.bounds.len() + 1, m.data.len());
        assert!(m.bounds.iter().all(|&b| b < 15));
    }
}

#[test]
fn positions() {
    let p = Position::new((3, 5));
    assert_eq!((p.x(), p.y(), p.area()), (3, 5, 15));
    let sp = SquarePosition::from_index(8, 19);
    assert_eq!(sp.position().p, (3, 2));
    assert_eq!(sp.index(), 19);
    let sp = SquarePosition::from_position(10, Position::new((4, 7)));
    assert_eq!(sp.index(), 74);
    for i in 0..100 {
        assert_eq!(SquarePosition::from_index(7, i).index(), i);
    }
}

#[test]
fn pattern_moves() {
    let out = Position::new((8, 8));
    let w = WindmillPattern::new(out);
    assert_eq!(w.iter(), 4);
    assert_eq!(w.required_size(), 16);
    assert_eq!(w.place(5).p, (1, 1));
    assert_eq!(w.step(Position::new((1, 2))).p, (5, 1));
    assert_eq!(w.step(Position::new((0, 9))).p, (usize::MAX - 1, 0));
    let v = VertMirrorPattern::new(out);
    assert_eq!((v.iter(), v.required_size()), (2, 32));
    assert_eq!(v.place(13).p, (1, 3));
    assert_eq!(v.step(Position::new((1, 2))).p, (6, 2));
    assert_eq!(v.step(Position::new((6, 2))).p, (1, 2));
    let h = HorizMirrorPattern::new(out);
    assert_eq!((h.iter(), h.required_size()), (2, 32));
    assert_eq!(h.place(13).p, (5, 1));
    assert_eq!(h.step(Position::new((5, 1))).p, (5, 6));
}

#[test]
fn orbits() {
    let w = Pattern::Windmill(WindmillPattern::new(Position::new((8, 8))));
    let o: Vec<(usize, usize)> = tessle(&w, 0).iter().map(|p| p.p).collect();
    assert_eq!(o, vec![(0, 0), (7, 0), (7, 7), (0, 7)]);
    let o: Vec<(usize, usize)> = tessle(&w, 6).iter().map(|p| p.p).collect();
    assert_eq!(o, vec![(2, 1), (6, 2), (5, 6), (1, 5)]);
    let v = Pattern::VertMirror(VertMirrorPattern::new(Position::new((8, 8))));
    let o: Vec<(usize, usize)> = tessle(&v, 9).iter().map(|p| p.p).collect();
    assert_eq!(o, vec![(1, 2), (6, 2)]);
}

fn check_square_symmetry(t: &Pattern, mini: &[Color]) {
    for x in 0..8 {
        for y in 0..8 {
            let here = mini[x + 8 * y];
            match t {
                Pattern::Windmill(_) => assert_eq!(here, mini[(7 - y) + 8 * x]),
                Pattern::VertMirror(_) => assert_eq!(here, mini[(7 - x) + 8 * y]),
                Pattern::HorizMirror(_) => assert_eq!(here, mini[x + 8 * (7 - y)]),
            }
        }
    }
}

#[test]
fn painting_the_small_square() {
    let out = Position::new((8, 8));
    let w = Pattern::Windmill(WindmillPattern::new(out));
    let mini = paint_square(&w, &numbered(16));
    assert_eq!(mini.len(), 64);
    assert_eq!(mini[0], numbered(16)[0]);
    assert_eq!(mini[7], numbered(16)[0]);
    assert_eq!(mini[1 + 8 * 2], numbered(16)[9]);
    check_square_symmetry(&w, &mini);
    for p in [
        Pattern::VertMirror(VertMirrorPattern::new(out)),
        Pattern::HorizMirror(HorizMirrorPattern::new(out)),
    ] {
        let mini = paint_square(&p, &numbered(32));
        check_square_symmetry(&p, &mini);
        let mut distinct = mini.clone();
        distinct.sort_by_key(|c| c.r);
        distinct.dedup();
        assert_eq!(distinct.len(), 32);
    }
}

#[test]
fn blowing_up() {
    let mini = numbered(64);
    let image = blow_up(&mini, 16);
    assert_eq!(image.len(), 256);
    for x in 0..16 {
        for y in 0..16 {
            assert_eq!(image[x + 16 * y], mini[x / 2 + 8 * (y / 2)]);
        }
    }
    assert!(blow_up(&mini, 0).is_empty());
    assert_eq!(blow_up(&mini, 8), mini);
}

#[test]
fn avatar_from_pallete() {
    let w = Pattern::Windmill(WindmillPattern::new(Position::new((8, 8))));
    let a = Avatar::from_pallete(&w, &numbered(16), 32);
    assert_eq!(a.dim, 32);
    assert_eq!(a.image.len(), 1024);
    for x in 0..32 {
        for y in 0..32 {
            assert_eq!(a.image[x + 32 * y], a.image[(31 - y) + 32 * x]);
        }
    }
}

#[test]
fn random_avatars_are_symmetric() {
    let pairs = color_pairs();
    for seed in 0..10u64 {
        let mut rng = Generator::seeded(seed as u32, 0);
        let a = Avatar::new(&pairs, seed, 64, &mut rng);
        assert_eq!(a.dim, 64);
        assert_eq!(a.image.len(), 64 * 64);
        let rotated = (0..64).all(|x| (0..64).all(|y| a.image[x + 64 * y] == a.image[(63 - y) + 64 * x]));
        let mirrored = (0..64).all(|x| (0..64).all(|y| a.image[x + 64 * y] == a.image[(63 - x) + 64 * y]));
        assert!(rotated || mirrored);
        assert!(pairs.iter().any(|pair| a.image.iter().all(|p| pair.contains(p))));
    }
}

#[test]
fn empty_avatar() {
    let mut rng = Generator::seeded(1, 2);
    let a = Avatar::new(&color_pairs(), 0, 0, &mut rng);
    assert_eq!(a.dim, 0);
    assert!(a.image.is_empty());
    assert_eq!(a.ppm(), b"P6\n0 0\n255\n".to_vec());
}

#[test]
fn portable_pixmap() {
    let a = Avatar { dim: 1, image: vec![c(1, 2, 3)] };
    assert_eq!(a.ppm(), b"P6\n1 1\n255\n\x01\x02\x03".to_vec());
    let w = Pattern::VertMirror(VertMirrorPattern::new(Position::new((8, 8))));
    let a = Avatar::from_pallete(&w, &numbered(32), 16);
    let bytes = a.ppm();
    let header = b"P6\n16 16\n255\n";
    assert_eq!(&bytes[..header.len()], header);
    assert_eq!(bytes.len(), header.len() + 3 * 256);
    assert_eq!(&bytes[header.len()..header.len() + 3], &[0, 100, 200]);
}

#[test]
fn the_colour_pairs() {
    let pairs = color_pairs();
    assert_eq!(pairs.len(), 7);
    assert!(pairs.iter().all(|p| p.len() == 2));
    assert_eq!(pairs[0][0], c(0xED, 0xB2, 0x31));
    assert_eq!(pairs[0][1], c(0x4A, 0xF0, 0xA9));
    assert_eq!(pairs[3][0], c(0x0D, 0x57, 0x99));
    assert_eq!(pairs[5][1], c(0x40, 0x40, 0x40));
    assert_eq!(pairs[6][1], c(0xBE, 0xF2, 0x43));
}

#[test]
fn larger_keys_never_select_later_values() {
    let m = BoundedMask {
        data: vec![c(1, 1, 1), c(2, 2, 2), c(3, 3, 3), c(4, 4, 4)],
        bounds: vec![200, 120, 30],
        mask: 0xFF,
        offset: 0,
    };
    let index = |x: usize| m.data.iter().position(|d| *d == m.select(x)).unwrap();
    for a in 0..256usize {
        for b in a..256usize {
            assert!(index(b) <= index(a));
        }
        assert_eq!(m.select(a), m.select(a + 0x100));
    }
}

#[test]
fn orbits_paint_squares_exactly_once() {
    for n in [2usize, 4, 6, 8, 10, 16] {
        let out = Position::new((n, n));
        let patterns = [
            Pattern::Windmill(WindmillPattern::new(out)),
            Pattern::VertMirror(VertMirrorPattern::new(out)),
            Pattern::HorizMirror(HorizMirrorPattern::new(out)),
        ];
        for t in patterns {
            let points = match t {
                Pattern::Windmill(w) => w.required_size(),
                Pattern::VertMirror(v) => v.required_size(),
                Pattern::HorizMirror(h) => h.required_size(),
            };
            let mut count = vec![0usize; n * n];
            for i in 0..points {
                for p in tessle(&t, i) {
                    let (x, y) = p.p;
                    assert!(x < n && y < n);
                    count[x + n * y] += 1;
                }
            }
            assert!(count.iter().all(|&k| k == 1));
        }
    }
}

#[allow(deprecated)]
#[test]
fn avatar_of_a_name() {
    let pairs = color_pairs();
    let name = "octocat";
    let a = Avatar::avatar_for_name(name, &pairs, 32);
    let mut sip = std::hash::SipHasher::new_with_keys(0xFEED_DEAD_BEEF_BAFF, 0xDEAD_BEE5_DECA_DE00);
    name.hash(&mut sip);
    let hash = sip.finish();
    assert_eq!(name_seed(name), (hash as u32, (hash >> 32) as u32));
    let mut rng = Generator::seeded(hash as u32, (hash >> 32) as u32);
    let b = Avatar::new(&pairs, hash, 32, &mut rng);
    assert_eq!(a.dim, 32);
    assert_eq!(a.image, b.image);
    let again = Avatar::avatar_for_name(name, &pairs, 32);
    assert_eq!(again.image, a.image);
    assert!(pairs.iter().any(|pair| a.image.iter().all(|p| pair.contains(p))));
}

fn isaac(a: u32, b: u32) -> IsaacRng {
    let mut seed = [0u8; 32];
    seed[0..4].copy_from_slice(&a.to_le_bytes());
    seed[4..8].copy_from_slice(&b.to_le_bytes());
    IsaacRng::from_seed(seed)
}

#[test]
fn selection_inputs_are_drawn_from_reseeded_streams() {
    let mut rng = Generator::seeded(11, 22);
    let inputs = draw_inputs(&mut rng, 3);
    let mut reference = isaac(11, 22);
    let mut expected = Vec::new();
    for _ in 0..3 {
        let a = reference.next_u32();
        let b = reference.next_u32();
        reference = isaac(a, b);
        expected.push(reference.next_u32());
    }
    assert_eq!(inputs, expected);
}

#[test]
fn pallete_selected_for_inputs() {
    let m = BoundedMask {
        data: vec![c(1, 1, 1), c(2, 2, 2)],
        bounds: vec![0x80],
        mask: 0xFF,
        offset: 0,
    };
    let p = pallete_from_inputs(&m, &vec![0x90, 0x10, 0x1FF, 0x7F]);
    assert_eq!(p, vec![c(1, 1, 1), c(2, 2, 2), c(1, 1, 1), c(2, 2, 2)]);
}

#[test]
fn selecting_with_fewer_bounds() {
    let m = BoundedMask {
        data: vec![c(1, 1, 1), c(2, 2, 2), c(3, 3, 3)],
        bounds: vec![100],
        mask: 0xFF,
        offset: 0,
    };
    assert_eq!(m.select(150), c(1, 1, 1));
    assert_eq!(m.select(10), c(2, 2, 2));
}

#[test]
fn the_same_name_gives_the_same_avatar() {
    let pairs = color_pairs();
    let a = Avatar::avatar_for_name("alice", &pairs, 16);
    let b = Avatar::avatar_for_name("alice", &pairs, 16);
    assert_eq!(a.image, b.image);
    let (low, high) = name_seed("alice");
    let d = Avatar::new(&pairs, 0, 16, &mut Generator::seeded(low, high));
    assert_eq!(a.image, d.image);
}
