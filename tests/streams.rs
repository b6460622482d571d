use diehardest::analysis::Report;
use diehardest::transform::{
    Add, Concatenate32, Hamming, LastBit, ModularDivideByThree, Multiply, MultiplyByThree,
    ParitySkip, Rol7, SkipOne, SkipTwo, Xor,
};
use diehardest::{crush, Random};

/// Always yields the same value.
struct Constant(u64);

impl Random for Constant {
    fn get_random(&mut self) -> u64 {
        self.0
    }

    fn duplicate(&self) -> Self {
        Constant(self.0)
    }
}

/// Yields 0, 1, 2, ...
struct Counter(u64);

impl Random for Counter {
    fn get_random(&mut self) -> u64 {
        let r = self.0;
        self.0 = self.0.wrapping_add(1);
        r
    }

    fn duplicate(&self) -> Self {
        Counter(self.0)
    }
}

/// A seeded xorshift generator.
struct XorShift(u64);

impl Random for XorShift {
    fn get_random(&mut self) -> u64 {
        let mut x = self.0;
        x ^= x << 13;
        x ^= x >> 7;
        x ^= x << 17;
        self.0 = x;
        x
    }

    fn duplicate(&self) -> Self {
        XorShift(self.0)
    }
}

/// Yields `anchor` first and again at sample index `at`; otherwise `1000 + position`.
struct Returning {
    pos: u64,
    anchor: u64,
    at: u64,
}

impl Random for Returning {
    fn get_random(&mut self) -> u64 {
        let p = self.pos;
        self.pos += 1;
        if p == 0 || p == self.at + 1 {
            self.anchor
        } else {
            1000 + p
        }
    }

    fn duplicate(&self) -> Self {
        Returning { pos: self.pos, anchor: self.anchor, at: self.at }
    }
}

fn implication(v: u64, x: u32, y: u32) -> bool {
    v & (1 << x) != 0 || v & (1 << y) == 0
}

#[test]
fn constant_source_report() {
    let c: u64 = 0b1010_0110_0001;
    let report = Report::new(Constant(c));
    for x in 0..64 {
        for y in 0..64 {
            let want = if implication(c, x as u32, y as u32) { 65536 } else { 0 };
            assert_eq!(report.dependency(x, y), want);
        }
    }
    for b in 0..4096 {
        let want = if b as u64 == c % 4096 { 65536 } else { 0 };
        assert_eq!(report.distribution(b), want);
    }
    assert_eq!(report.collisions(), 65535);
    assert_eq!(report.cycle_length(), Some(0));
    let score = report.get_score();
    assert_eq!(score.collision(), 0);
    assert_eq!(score.cycle(), 0);
}

#[test]
fn constant_zero_source_has_uniform_matrix() {
    let report = Report::new(Constant(0));
    for x in 0..64 {
        for y in 0..64 {
            assert_eq!(report.dependency(x, y), 65536);
        }
    }
    let score = report.get_score();
    assert_eq!(score.bit_dependency(), 255);
    // All values in bucket zero: least count 0 (16 below ideal), greatest 65536.
    assert_eq!(score.distribution(), 50);
    assert_eq!(score.total(), 305);
}

#[test]
fn constant_all_ones_source_has_uniform_matrix() {
    let report = Report::new(Constant(u64::MAX));
    for x in 0..64 {
        for y in 0..64 {
            assert_eq!(report.dependency(x, y), 65536);
        }
    }
}

#[test]
fn cycle_found_at_known_index() {
    let report = Report::new(Returning { pos: 0, anchor: 7, at: 1234 });
    assert_eq!(report.cycle_length(), Some(1234));
    assert_eq!(report.get_score().cycle(), 0);
}

#[test]
fn cycle_found_at_first_index() {
    let report = Report::new(Returning { pos: 0, anchor: 7, at: 0 });
    assert_eq!(report.cycle_length(), Some(0));
    assert_eq!(report.get_score().cycle(), 0);
}

#[test]
fn cycle_absent_within_sample() {
    let report = Report::new(Returning { pos: 0, anchor: 7, at: 70000 });
    assert_eq!(report.cycle_length(), None);
    assert_eq!(report.collisions(), 0);
    let score = report.get_score();
    assert_eq!(score.cycle(), 255);
    assert_eq!(score.collision(), 255);
}

#[test]
fn one_collision_scores_twenty() {
    // Sample index 20 repeats the value at sample index 10, and nothing else repeats.
    let report = Report::new(Returning { pos: 0, anchor: 1011, at: 20 });
    assert_eq!(report.collisions(), 1);
    assert_eq!(report.get_score().collision(), 20);
}

#[test]
fn counter_score_is_exact() {
    // Anchor 0, sample 1..=65536: every bucket holds 16, no value repeats, and bit 20 clear
    // fails to imply bit 0 clear for the 32768 odd values.
    let report = Report::new(Counter(0));
    assert_eq!(report.distribution(0), 16);
    assert_eq!(report.distribution(4095), 16);
    assert_eq!(report.dependency(20, 0), 32768);
    assert_eq!(report.dependency(0, 20), 65536);
    let score = report.get_score();
    assert_eq!(score.cycle(), 255);
    assert_eq!(score.collision(), 255);
    assert_eq!(score.bit_dependency(), 0);
    assert_eq!(score.distribution(), 255);
    assert_eq!(score.total(), 765);
}

#[test]
fn default_report_score() {
    let score = Report::default().get_score();
    assert_eq!(score.cycle(), 255);
    assert_eq!(score.collision(), 255);
    assert_eq!(score.bit_dependency(), 0);
    assert_eq!(score.distribution(), 50);
    assert_eq!(score.total(), 560);
}

#[test]
fn xor_of_successive_pairs() {
    let src = XorShift(0x9e37_79b9_7f4a_7c15);
    let mut plain = src.duplicate();
    let mut xored = Xor(src.duplicate());
    for _ in 0..100 {
        let a = plain.get_random();
        let b = plain.get_random();
        assert_eq!(xored.get_random(), a ^ b);
    }
}

#[test]
fn transforms_on_a_counter() {
    assert_eq!(SkipOne(Counter(0)).get_random(), 1);
    let mut s = SkipOne(Counter(0));
    s.get_random();
    assert_eq!(s.get_random(), 3);
    let mut s = SkipTwo(Counter(0));
    assert_eq!(s.get_random(), 2);
    assert_eq!(s.get_random(), 5);
    assert_eq!(Concatenate32(Counter(0x1_0000_0005)).get_random(), (5 << 32) | 6);
    assert_eq!(Add(Counter(u64::MAX)).get_random(), u64::MAX.wrapping_add(0));
    assert_eq!(Add(Counter(10)).get_random(), 21);
    assert_eq!(Multiply(Counter(6)).get_random(), 42);
    assert_eq!(Multiply(Counter(1 << 63)).get_random(), 1 << 63);
    assert_eq!(LastBit(Counter(7)).get_random(), 1);
    assert_eq!(LastBit(Counter(8)).get_random(), 0);
    assert_eq!(MultiplyByThree(Counter(5)).get_random(), 15);
    assert_eq!(MultiplyByThree(Counter(u64::MAX)).get_random(), u64::MAX - 2);
    assert_eq!(ModularDivideByThree(Counter(20)).get_random(), 6);
    assert_eq!(Hamming(Counter(0b1011_0001)).get_random(), 4);
    assert_eq!(Hamming(Counter(u64::MAX)).get_random(), 64);
    assert_eq!(Rol7(Counter(1 << 60)).get_random(), 1 << 3);
    assert_eq!(Rol7(Counter(3)).get_random(), 3 << 7);
}

#[test]
fn parity_skip_on_a_counter() {
    // 0 is even: return 1. Then 2 is even: return 3. Then 4: return 5.
    let mut s = ParitySkip(Counter(0));
    assert_eq!(s.get_random(), 1);
    assert_eq!(s.get_random(), 3);
    // 1 is odd: skip 2, return 3. Then 4 is even: return 5.
    let mut s = ParitySkip(Counter(1));
    assert_eq!(s.get_random(), 3);
    assert_eq!(s.get_random(), 5);
}

#[test]
fn duplicate_then_draw_agrees() {
    let mut a = Counter(41);
    let mut b = a.duplicate();
    assert_eq!(a.get_random(), b.get_random());
    a.get_random();
    a.get_random();
    assert_eq!(b.get_random(), 42);
    assert_eq!(a.get_random(), 44);
}

#[test]
fn crush_is_deterministic() {
    let src = XorShift(0x2545_f491_4f6c_dd1d);
    let first = crush(src.duplicate());
    let second = crush(src);
    assert_eq!(first, second);
}

#[test]
fn crush_sums_all_thirteen_ratings() {
    let src = Counter(0);
    fn rate<R: Random>(r: R) -> u32 {
        Report::new(r).get_score().total() as u32
    }
    let want = rate(src.duplicate())
        + rate(SkipOne(src.duplicate()))
        + rate(SkipTwo(src.duplicate()))
        + rate(Concatenate32(src.duplicate()))
        + rate(Xor(src.duplicate()))
        + rate(Add(src.duplicate()))
        + rate(Multiply(src.duplicate()))
        + rate(LastBit(src.duplicate()))
        + rate(MultiplyByThree(src.duplicate()))
        + rate(ModularDivideByThree(src.duplicate()))
        + rate(Hamming(src.duplicate()))
        + rate(ParitySkip(src.duplicate()))
        + rate(Rol7(src.duplicate()));
    assert_eq!(crush(src), want);
}

#[test]
fn crush_of_constant_source() {
    // Each of the thirteen streams yields only zeros: cycle 0, collision 0, a full matrix
    // (255) and every value in one bucket (least count 0: 50), so 305 each.
    assert_eq!(crush(Constant(0)), 3965);
}

#[test]
fn word_from_bytes_is_big_endian() {
    assert_eq!(diehardest::word_from_bytes(&[0, 0, 0, 0, 0, 0, 1, 2]), 0x0102);
    assert_eq!(
        diehardest::word_from_bytes(&[0x12, 0x34, 0x56, 0x78, 0x9a, 0xbc, 0xde, 0xf0]),
        0x1234_5678_9abc_def0
    );
    assert_eq!(diehardest::word_from_bytes(&[0xff; 8]), u64::MAX);
}
