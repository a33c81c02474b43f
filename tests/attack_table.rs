use queens_ga::attack::SlidingAttack;
use queens_ga::bb::BBTrait;

fn on_board(r: i32, c: i32) -> bool {
    (0..8).contains(&r) && (0..8).contains(&c)
}

fn ray_count(sq: i32) -> u32 {
    let (r0, c0) = (sq / 8, sq % 8);
    let dirs = [(1, 1), (1, -1), (-1, 1), (-1, -1), (1, 0), (-1, 0), (0, 1), (0, -1)];
    let mut n = 0;
    for (dr, dc) in dirs {
        let (mut r, mut c) = (r0 + dr, c0 + dc);
        while on_board(r, c) {
            n += 1;
            r += dr;
            c += dc;
        }
    }
    n
}

#[test]
fn bishop_reach_excludes_self_and_is_diagonal() {
    let t = SlidingAttack::new();
    for sq in 0..64i32 {
        let b = t.bishop_moves[sq as usize];
        assert!(!b.get_bit(sq as i8));
        for u in 0..64i32 {
            let dr = (u / 8 - sq / 8).abs();
            let dc = (u % 8 - sq % 8).abs();
            assert_eq!(b.get_bit(u as i8), u != sq && dr == dc, "sq {} u {}", sq, u);
        }
    }
}

#[test]
fn rook_reach_excludes_self_and_is_straight() {
    let t = SlidingAttack::new();
    for sq in 0..64i32 {
        let b = t.rook_moves[sq as usize];
        assert!(!b.get_bit(sq as i8));
        for u in 0..64i32 {
            let same = u / 8 == sq / 8 || u % 8 == sq % 8;
            assert_eq!(b.get_bit(u as i8), u != sq && same, "sq {} u {}", sq, u);
        }
    }
}

#[test]
fn queen_reach_count_matches_rays() {
    let t = SlidingAttack::new();
    for sq in 0..64i32 {
        let q = t.bishop_moves[sq as usize] | t.rook_moves[sq as usize];
        assert_eq!(q.count_ones(), ray_count(sq), "sq {}", sq);
    }
}

#[test]
fn queen_reach_exact_counts() {
    let t = SlidingAttack::new();
    let corner = t.bishop_moves[0] | t.rook_moves[0];
    assert_eq!(corner.count_ones(), 21);
    let centre = t.bishop_moves[27] | t.rook_moves[27];
    assert_eq!(centre.count_ones(), 27);
    assert_eq!(t.bishop_moves[0], 0x8040201008040200);
    assert_eq!(t.rook_moves[0], 0x01010101010101FE);
}

#[test]
fn rook_rays_do_not_wrap_rows() {
    let t = SlidingAttack::new();
    assert!(!t.rook_moves[7].get_bit(8));
    assert!(!t.rook_moves[8].get_bit(7));
    assert!(!t.bishop_moves[7].get_bit(8));
    assert!(!t.bishop_moves[8].get_bit(7));
}
