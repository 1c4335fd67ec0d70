//! A small, seedable random-number generator.
//!
//! Measurement needs random bits. The generator is `xoshiro256++`, seeded
//! through `SplitMix64` so that any seed (including `0`) yields a well-mixed
//! four-word state. It is deterministic given its seed, which makes
//! measurement-based runs reproducible.

use vstd::prelude::*;

verus! {

/// The `SplitMix64` increment (the 64-bit golden ratio).
pub const SPLITMIX_GAMMA: u64 = 0x9E37_79B9_7F4A_7C15u64;

/// The first `SplitMix64` mixing multiplier.
pub const SPLITMIX_MUL1: u64 = 0xBF58_476D_1CE4_E5B9u64;

/// The second `SplitMix64` mixing multiplier.
pub const SPLITMIX_MUL2: u64 = 0x94D0_49BB_1331_11EBu64;

/// Rotates `x` left by `k` bits (`0 < k < 64`), wrapping the bits shifted out
/// at the top back in at the bottom.
pub open spec fn rotl(x: u64, k: u64) -> u64
    recommends
        0 < k < 64,
{
    (x << k) | (x >> (64 - k) as u64)
}

/// The `SplitMix64` output function applied to an already-advanced counter.
pub open spec fn splitmix_mix(z0: u64) -> u64 {
    let z1 = (z0 ^ (z0 >> 30u64)).wrapping_mul(SPLITMIX_MUL1);
    let z2 = (z1 ^ (z1 >> 27u64)).wrapping_mul(SPLITMIX_MUL2);
    z2 ^ (z2 >> 31u64)
}

/// The `SplitMix64` counter after `k` steps from `seed`.
pub open spec fn splitmix_counter(seed: u64, k: nat) -> u64
    decreases k,
{
    if k == 0 {
        seed
    } else {
        splitmix_counter(seed, (k - 1) as nat).wrapping_add(SPLITMIX_GAMMA)
    }
}

/// The four-word state a generator seeded with `seed` starts from: the first
/// four `SplitMix64` outputs for that seed.
pub open spec fn seeded_state(seed: u64) -> Seq<u64> {
    seq![
        splitmix_mix(splitmix_counter(seed, 1)),
        splitmix_mix(splitmix_counter(seed, 2)),
        splitmix_mix(splitmix_counter(seed, 3)),
        splitmix_mix(splitmix_counter(seed, 4)),
    ]
}

/// The value `xoshiro256++` outputs from state `s`.
pub open spec fn xoshiro_output(s: Seq<u64>) -> u64
    recommends
        s.len() == 4,
{
    rotl(s[0].wrapping_add(s[3]), 23).wrapping_add(s[0])
}

/// The state `xoshiro256++` advances to from state `s`.
pub open spec fn xoshiro_step(s: Seq<u64>) -> Seq<u64>
    recommends
        s.len() == 4,
{
    let t = s[1] << 17u64;
    let s2 = s[2] ^ s[0];
    let s3 = s[3] ^ s[1];
    let s1 = s[1] ^ s2;
    let s0 = s[0] ^ s3;
    seq![s0, s1, s2 ^ t, rotl(s3, 45)]
}

/// The `k`-th output (counting from 0) of a generator in state `s`.
pub open spec fn xoshiro_stream(s: Seq<u64>, k: nat) -> u64
    decreases k,
{
    if k == 0 {
        xoshiro_output(s)
    } else {
        xoshiro_stream(xoshiro_step(s), (k - 1) as nat)
    }
}

/// A deterministic pseudo-random generator (`xoshiro256++`).
#[derive(Clone, Debug)]
pub struct Rng {
    s: [u64; 4],
}

impl View for Rng {
    type V = Seq<u64>;

    /// The four state words.
    closed spec fn view(&self) -> Seq<u64> {
        self.s@
    }
}

fn rotate_left(x: u64, k: u64) -> (r: u64)
    requires
        0 < k < 64,
    ensures
        r == rotl(x, k),
{
    (x << k) | (x >> (64 - k))
}

fn splitmix_next(seed: &mut u64) -> (out: u64)
    ensures
        *final(seed) == old(seed).wrapping_add(SPLITMIX_GAMMA),
        out == splitmix_mix(*final(seed)),
{
    *seed = seed.wrapping_add(SPLITMIX_GAMMA);
    let mut z = *seed;
    z = (z ^ (z >> 30)).wrapping_mul(SPLITMIX_MUL1);
    z = (z ^ (z >> 27)).wrapping_mul(SPLITMIX_MUL2);
    z ^ (z >> 31)
}

impl Rng {
    /// Seeds a generator. Any seed (including `0`) yields a valid stream; the
    /// seed is expanded through `SplitMix64` so the four words are well mixed.
    pub fn seed_from_u64(seed: u64) -> (r: Self)
        ensures
            r@ == seeded_state(seed),
    {
        let mut seed = seed;
        let ghost seed0 = seed;
        let a = splitmix_next(&mut seed);
        let b = splitmix_next(&mut seed);
        let c = splitmix_next(&mut seed);
        let d = splitmix_next(&mut seed);
        proof {
            reveal_with_fuel(splitmix_counter, 5);
        }
        let r = Rng { s: [a, b, c, d] };
        assert(r@ =~= seeded_state(seed0));
        r
    }

    /// Returns the next raw 64-bit value and advances the state.
    pub fn next_u64(&mut self) -> (v: u64)
        ensures
            v == xoshiro_output(old(self)@),
            final(self)@ == xoshiro_step(old(self)@),
    {
        let s0 = self.s[0];
        let s1 = self.s[1];
        let s2 = self.s[2];
        let s3 = self.s[3];
        let result = rotate_left(s0.wrapping_add(s3), 23).wrapping_add(s0);
        let t = s1 << 17;
        let n2 = s2 ^ s0;
        let n3 = s3 ^ s1;
        let n1 = s1 ^ n2;
        let n0 = s0 ^ n3;
        self.s = [n0, n1, n2 ^ t, rotate_left(n3, 45)];
        assert(self@ =~= xoshiro_step(old(self)@));
        result
    }
}

/// `SplitMix64` mixing sends only zero to zero: each step (an xor with a
/// right shift, or a product with an odd constant) is one-to-one.
proof fn lemma_mix_zero(z0: u64)
    requires
        splitmix_mix(z0) == 0,
    ensures
        z0 == 0,
{
    let y0 = z0 ^ (z0 >> 30u64);
    let z1 = y0.wrapping_mul(SPLITMIX_MUL1);
    let y1 = z1 ^ (z1 >> 27u64);
    let z2 = y1.wrapping_mul(SPLITMIX_MUL2);
    assert(z2 ^ (z2 >> 31u64) == 0 ==> z2 == 0) by (bit_vector);
    assert((y1 * 0x94D0_49BB_1331_11EBu64) % 0x1_0000_0000_0000_0000 == 0 ==> y1 == 0)
        by (bit_vector);
    assert(y1 == 0 ==> z1 == 0) by (bit_vector)
        requires
            y1 == z1 ^ (z1 >> 27u64),
    ;
    assert((y0 * 0xBF58_476D_1CE4_E5B9u64) % 0x1_0000_0000_0000_0000 == 0 ==> y0 == 0)
        by (bit_vector);
    assert(y0 == 0 ==> z0 == 0) by (bit_vector)
        requires
            y0 == z0 ^ (z0 >> 30u64),
    ;
}

/// Whatever the seed (zero too), a seeded generator's state is not all
/// zero, the one state from which `xoshiro256++` would only ever give zero.
pub proof fn law_seeded_state_nonzero(seed: u64)
    ensures
        seeded_state(seed).len() == 4,
        seeded_state(seed)[0] != 0 || seeded_state(seed)[1] != 0,
{
    reveal_with_fuel(splitmix_counter, 3);
    let c1 = splitmix_counter(seed, 1);
    let c2 = splitmix_counter(seed, 2);
    assert(c2 == c1.wrapping_add(SPLITMIX_GAMMA));
    if seeded_state(seed)[0] == 0 && seeded_state(seed)[1] == 0 {
        lemma_mix_zero(c1);
        lemma_mix_zero(c2);
        assert(false);
    }
}

/// The published `xoshiro256++` reference stream: seeded through
/// `SplitMix64` from seed 0, the generator's first eight outputs are these.
/// They pin every constant of the seeding and of the step (the shifts by 30,
/// 27 and 31 and both multipliers, the rotation by 23, the shift by 17 and
/// the rotation by 45): a change to any of them changes the stream.
pub proof fn law_reference_stream_seed_zero()
    ensures
        xoshiro_stream(seeded_state(0), 0) == 5987356902031041503u64,
        xoshiro_stream(seeded_state(0), 1) == 7051070477665621255u64,
        xoshiro_stream(seeded_state(0), 2) == 6633766593972829180u64,
        xoshiro_stream(seeded_state(0), 3) == 211316841551650330u64,
        xoshiro_stream(seeded_state(0), 4) == 9136120204379184874u64,
        xoshiro_stream(seeded_state(0), 5) == 379361710973160858u64,
        xoshiro_stream(seeded_state(0), 6) == 15813423377499357806u64,
        xoshiro_stream(seeded_state(0), 7) == 15596884590815070553u64,
{
    reveal_with_fuel(splitmix_counter, 5);
    assert((11400714819323198485u64 ^ (11400714819323198485u64 >> 30u64)) == 11400714825904921328u64
        && (8027708234668681072u64 ^ (8027708234668681072u64 >> 27u64)) == 8027708214854509594u64
        && (16294208413508607454u64 ^ (16294208413508607454u64 >> 31u64)) == 16294208416658607535u64
        && (4354685564936845354u64 ^ (4354685564936845354u64 >> 30u64)) == 4354685560920421857u64
        && (3068355146849465497u64 ^ (3068355146849465497u64 >> 27u64)) == 3068355124593927008u64
        && (7960286521582967072u64 ^ (7960286521582967072u64 >> 31u64)) == 7960286522194355700u64
        && (15755400384260043839u64 ^ (15755400384260043839u64 >> 30u64)) == 15755400395423662222u64
        && (17421011201455303838u64 ^ (17421011201455303838u64 >> 27u64)) == 17421011312986783994u64
        && (487617019697561470u64 ^ (487617019697561470u64 >> 31u64)) == 487617019471545679u64
        && (8709371129873690708u64 ^ (8709371129873690708u64 >> 30u64)) == 8709371121840843715u64
        && (1477815013145923307u64 ^ (1477815013145923307u64 >> 27u64)) == 1477815019315221373u64
        && (17909611381361733823u64 ^ (17909611381361733823u64 >> 31u64)) == 17909611376780542444u64
        && rotl(15757075719729598363u64, 23u64) == 8139892559081985584u64
        && (7960286522194355700u64 << 17u64) == 4383483972641357824u64
        && (487617019471545679u64 ^ 16294208416658607535u64) == 16493577261632751840u64
        && (17909611376780542444u64 ^ 7960286522194355700u64) == 10877080143251498008u64
        && (7960286522194355700u64 ^ 16493577261632751840u64) == 9987976044988984596u64
        && (16294208416658607535u64 ^ 10877080143251498008u64) == 8418229340007311799u64
        && (16493577261632751840u64 ^ 4383483972641357824u64) == 15578433054471653600u64
        && rotl(10877080143251498008u64, 45u64) == 13583721647463488126u64
        && rotl(3555206913761248309u64, 23u64) == 17079585211367861072u64
        && (9987976044988984596u64 << 17u64) == 15462745776729882624u64
        && (15578433054471653600u64 ^ 8418229340007311799u64) == 12457581816017363287u64
        && (13583721647463488126u64 ^ 9987976044988984596u64) == 3899969484231128938u64
        && (9987976044988984596u64 ^ 12457581816017363287u64) == 2773746658196409411u64
        && (8418229340007311799u64 ^ 3899969484231128938u64) == 4813494156097593053u64
        && (12457581816017363287u64 ^ 15462745776729882624u64) == 8823833645853483351u64
        && rotl(3899969484231128938u64, 45u64) == 13181269491728951246u64
        && rotl(17994763647826544299u64, 23u64) == 1820272437875236127u64
        && (2773746658196409411u64 << 17u64) == 12089778451931070464u64
        && (8823833645853483351u64 ^ 4813494156097593053u64) == 4087151480134516618u64
        && (13181269491728951246u64 ^ 2773746658196409411u64) == 10417693590985370509u64
        && (2773746658196409411u64 ^ 4087151480134516618u64) == 2217505488039867337u64
        && (4813494156097593053u64 ^ 10417693590985370509u64) == 15159083698526516560u64
        && (4087151480134516618u64 ^ 12089778451931070464u64) == 11493186177312702346u64
        && rotl(10417693590985370509u64, 45u64) == 9039201719143368113u64
        && rotl(5751541343960333057u64, 23u64) == 3498977216734685386u64
        && (2217505488039867337u64 << 17u64) == 5979702993796333568u64
        && (11493186177312702346u64 ^ 15159083698526516560u64) == 5557474521649335002u64
        && (9039201719143368113u64 ^ 2217505488039867337u64) == 7185382620610197112u64
        && (2217505488039867337u64 ^ 5557474521649335002u64) == 6045577685951396115u64
        && (15159083698526516560u64 ^ 7185382620610197112u64) == 12819629529729991464u64
        && (5557474521649335002u64 ^ 5979702993796333568u64) == 2295764409171266266u64
        && rotl(7185382620610197112u64, 45u64) == 10290457378594590359u64
        && rotl(4663342834615030207u64, 23u64) == 14763234748358745026u64
        && (6045577685951396115u64 << 17u64) == 7620022753892368384u64
        && (2295764409171266266u64 ^ 12819629529729991464u64) == 12552737998766688754u64
        && (10290457378594590359u64 ^ 6045577685951396115u64) == 15936331055234332548u64
        && (6045577685951396115u64 ^ 12552737998766688754u64) == 18289817841045631201u64
        && (12819629529729991464u64 ^ 15936331055234332548u64) == 7836616895581041836u64
        && (12552737998766688754u64 ^ 7620022753892368384u64) == 14378738937188272626u64
        && rotl(15936331055234332548u64, 45u64) == 10876364233727353416u64
        && rotl(266237055598843636u64, 23u64) == 10989488889101670638u64
        && (18289817841045631201u64 << 17u64) == 17931218534482968576u64
        && (14378738937188272626u64 ^ 7836616895581041836u64) == 12342901386780999006u64
        && (10876364233727353416u64 ^ 18289817841045631201u64) == 7719987562163819177u64
        && (18289817841045631201u64 ^ 12342901386780999006u64) == 6239938521442913727u64
        && (7836616895581041836u64 ^ 7719987562163819177u64) == 568480783679612421u64
        && (12342901386780999006u64 ^ 17931218534482968576u64) == 6022077045197241694u64
        && rotl(7719987562163819177u64, 45u64) == 12273766268547965734u64
        && rotl(12842247052227578155u64, 23u64) == 15244942593819745385u64
        && (6239938521442913727u64 << 17u64) == 7929886505198026752u64
        && (6022077045197241694u64 ^ 568480783679612421u64) == 6084663711368747867u64
        && (12273766268547965734u64 ^ 6239938521442913727u64) == 18216385813784604313u64
        && (6239938521442913727u64 ^ 6084663711368747867u64) == 209881849482811108u64
        && (568480783679612421u64 ^ 18216385813784604313u64) == 18099470064188344476u64
        && (6084663711368747867u64 ^ 7929886505198026752u64) == 4214679493675457371u64
        && rotl(18216385813784604313u64, 45u64) == 1572670624253100611u64
        && rotl(1225396614731893471u64, 23u64) == 15944158600336277693u64) by (bit_vector);
    assert(splitmix_counter(0u64, 1) == 11400714819323198485u64);
    assert((11400714825904921328u64).wrapping_mul(SPLITMIX_MUL1) == 8027708234668681072u64);
    assert((8027708214854509594u64).wrapping_mul(SPLITMIX_MUL2) == 16294208413508607454u64);
    assert(splitmix_mix(11400714819323198485u64) == 16294208416658607535u64);
    assert(splitmix_counter(0u64, 2) == 4354685564936845354u64);
    assert((4354685560920421857u64).wrapping_mul(SPLITMIX_MUL1) == 3068355146849465497u64);
    assert((3068355124593927008u64).wrapping_mul(SPLITMIX_MUL2) == 7960286521582967072u64);
    assert(splitmix_mix(4354685564936845354u64) == 7960286522194355700u64);
    assert(splitmix_counter(0u64, 3) == 15755400384260043839u64);
    assert((15755400395423662222u64).wrapping_mul(SPLITMIX_MUL1) == 17421011201455303838u64);
    assert((17421011312986783994u64).wrapping_mul(SPLITMIX_MUL2) == 487617019697561470u64);
    assert(splitmix_mix(15755400384260043839u64) == 487617019471545679u64);
    assert(splitmix_counter(0u64, 4) == 8709371129873690708u64);
    assert((8709371121840843715u64).wrapping_mul(SPLITMIX_MUL1) == 1477815013145923307u64);
    assert((1477815019315221373u64).wrapping_mul(SPLITMIX_MUL2) == 17909611381361733823u64);
    assert(splitmix_mix(8709371129873690708u64) == 17909611376780542444u64);
    assert((16294208416658607535u64).wrapping_add(17909611376780542444u64) == 15757075719729598363u64);
    assert((8139892559081985584u64).wrapping_add(16294208416658607535u64) == 5987356902031041503u64);
    assert((8418229340007311799u64).wrapping_add(13583721647463488126u64) == 3555206913761248309u64);
    assert((17079585211367861072u64).wrapping_add(8418229340007311799u64) == 7051070477665621255u64);
    assert((4813494156097593053u64).wrapping_add(13181269491728951246u64) == 17994763647826544299u64);
    assert((1820272437875236127u64).wrapping_add(4813494156097593053u64) == 6633766593972829180u64);
    assert((15159083698526516560u64).wrapping_add(9039201719143368113u64) == 5751541343960333057u64);
    assert((3498977216734685386u64).wrapping_add(15159083698526516560u64) == 211316841551650330u64);
    assert((12819629529729991464u64).wrapping_add(10290457378594590359u64) == 4663342834615030207u64);
    assert((14763234748358745026u64).wrapping_add(12819629529729991464u64) == 9136120204379184874u64);
    assert((7836616895581041836u64).wrapping_add(10876364233727353416u64) == 266237055598843636u64);
    assert((10989488889101670638u64).wrapping_add(7836616895581041836u64) == 379361710973160858u64);
    assert((568480783679612421u64).wrapping_add(12273766268547965734u64) == 12842247052227578155u64);
    assert((15244942593819745385u64).wrapping_add(568480783679612421u64) == 15813423377499357806u64);
    assert((18099470064188344476u64).wrapping_add(1572670624253100611u64) == 1225396614731893471u64);
    assert((15944158600336277693u64).wrapping_add(18099470064188344476u64) == 15596884590815070553u64);
    assert(seeded_state(0u64) =~= seq![16294208416658607535u64, 7960286522194355700u64, 487617019471545679u64, 17909611376780542444u64]);
    assert(xoshiro_step(seq![16294208416658607535u64, 7960286522194355700u64, 487617019471545679u64, 17909611376780542444u64]) =~= seq![8418229340007311799u64, 9987976044988984596u64, 15578433054471653600u64, 13583721647463488126u64]);
    assert(xoshiro_step(seq![8418229340007311799u64, 9987976044988984596u64, 15578433054471653600u64, 13583721647463488126u64]) =~= seq![4813494156097593053u64, 2773746658196409411u64, 8823833645853483351u64, 13181269491728951246u64]);
    assert(xoshiro_step(seq![4813494156097593053u64, 2773746658196409411u64, 8823833645853483351u64, 13181269491728951246u64]) =~= seq![15159083698526516560u64, 2217505488039867337u64, 11493186177312702346u64, 9039201719143368113u64]);
    assert(xoshiro_step(seq![15159083698526516560u64, 2217505488039867337u64, 11493186177312702346u64, 9039201719143368113u64]) =~= seq![12819629529729991464u64, 6045577685951396115u64, 2295764409171266266u64, 10290457378594590359u64]);
    assert(xoshiro_step(seq![12819629529729991464u64, 6045577685951396115u64, 2295764409171266266u64, 10290457378594590359u64]) =~= seq![7836616895581041836u64, 18289817841045631201u64, 14378738937188272626u64, 10876364233727353416u64]);
    assert(xoshiro_step(seq![7836616895581041836u64, 18289817841045631201u64, 14378738937188272626u64, 10876364233727353416u64]) =~= seq![568480783679612421u64, 6239938521442913727u64, 6022077045197241694u64, 12273766268547965734u64]);
    assert(xoshiro_step(seq![568480783679612421u64, 6239938521442913727u64, 6022077045197241694u64, 12273766268547965734u64]) =~= seq![18099470064188344476u64, 209881849482811108u64, 4214679493675457371u64, 1572670624253100611u64]);
    reveal_with_fuel(xoshiro_stream, 9);
    assert(xoshiro_output(seq![16294208416658607535u64, 7960286522194355700u64, 487617019471545679u64, 17909611376780542444u64]) == 5987356902031041503u64);
    assert(xoshiro_output(seq![8418229340007311799u64, 9987976044988984596u64, 15578433054471653600u64, 13583721647463488126u64]) == 7051070477665621255u64);
    assert(xoshiro_output(seq![4813494156097593053u64, 2773746658196409411u64, 8823833645853483351u64, 13181269491728951246u64]) == 6633766593972829180u64);
    assert(xoshiro_output(seq![15159083698526516560u64, 2217505488039867337u64, 11493186177312702346u64, 9039201719143368113u64]) == 211316841551650330u64);
    assert(xoshiro_output(seq![12819629529729991464u64, 6045577685951396115u64, 2295764409171266266u64, 10290457378594590359u64]) == 9136120204379184874u64);
    assert(xoshiro_output(seq![7836616895581041836u64, 18289817841045631201u64, 14378738937188272626u64, 10876364233727353416u64]) == 379361710973160858u64);
    assert(xoshiro_output(seq![568480783679612421u64, 6239938521442913727u64, 6022077045197241694u64, 12273766268547965734u64]) == 15813423377499357806u64);
    assert(xoshiro_output(seq![18099470064188344476u64, 209881849482811108u64, 4214679493675457371u64, 1572670624253100611u64]) == 15596884590815070553u64);
}


/// The reference `xoshiro256++` stream from seed 1: its first eight
/// outputs.
pub proof fn law_reference_stream_seed_one()
    ensures
        xoshiro_stream(seeded_state(1), 0) == 14971601782005023387u64,
        xoshiro_stream(seeded_state(1), 1) == 13781649495232077965u64,
        xoshiro_stream(seeded_state(1), 2) == 1847458086238483744u64,
        xoshiro_stream(seeded_state(1), 3) == 13765271635752736470u64,
        xoshiro_stream(seeded_state(1), 4) == 3406718355780431780u64,
        xoshiro_stream(seeded_state(1), 5) == 10892412867582108485u64,
        xoshiro_stream(seeded_state(1), 6) == 18204613561675945223u64,
        xoshiro_stream(seeded_state(1), 7) == 9655336933892813345u64,
{
    reveal_with_fuel(splitmix_counter, 5);
    assert((11400714819323198486u64 ^ (11400714819323198486u64 >> 30u64)) == 11400714825904921331u64
        && (12497766466719209627u64 ^ (12497766466719209627u64 >> 27u64)) == 12497766553993467086u64
        && (10451216384067503898u64 ^ (10451216384067503898u64 >> 31u64)) == 10451216379200822465u64
        && (4354685564936845355u64 ^ (4354685564936845355u64 >> 30u64)) == 4354685560920421856u64
        && (7727250427402473184u64 ^ (7727250427402473184u64 >> 27u64)) == 7727250483648783541u64
        && (13757245205476144935u64 ^ (13757245205476144935u64 >> 31u64)) == 13757245211066428519u64
        && (15755400384260043840u64 ^ (15755400384260043840u64 >> 30u64)) == 15755400395423662321u64
        && (17358980269446333225u64 ^ (17358980269446333225u64 >> 27u64)) == 17358980226569376128u64
        && (17911839290532630656u64 ^ (17911839290532630656u64 >> 31u64)) == 17911839290282890590u64
        && (8709371129873690709u64 ^ (8709371129873690709u64 >> 30u64)) == 8709371121840843714u64
        && (6136710293698930994u64 ^ (6136710293698930994u64 >> 27u64)) == 6136710249187854017u64
        && (8196980750055228459u64 ^ (8196980750055228459u64 >> 31u64)) == 8196980753821780235u64
        && rotl(201453059313051084u64, 23u64) == 4520385402804200922u64
        && (13757245211066428519u64 << 17u64) == 1964355716538826752u64
        && (17911839290282890590u64 ^ 10451216379200822465u64) == 7609270286087621023u64
        && (8196980753821780235u64 ^ 13757245211066428519u64) == 14927756222299645292u64
        && (13757245211066428519u64 ^ 7609270286087621023u64) == 15524473765000832504u64
        && (10451216379200822465u64 ^ 14927756222299645292u64) == 6782463769496680877u64
        && (7609270286087621023u64 ^ 1964355716538826752u64) == 8276283643026868639u64
        && rotl(14927756222299645292u64, 45u64) == 9560466793901207929u64
        && rotl(16342930563397888806u64, 23u64) == 6999185725735397088u64
        && (15524473765000832504u64 << 17u64) == 380043435898306560u64
        && (8276283643026868639u64 ^ 6782463769496680877u64) == 3241292945008128050u64
        && (9560466793901207929u64 ^ 15524473765000832504u64) == 6043719951361561729u64
        && (15524473765000832504u64 ^ 3241292945008128050u64) == 18125124148271158730u64
        && (6782463769496680877u64 ^ 6043719951361561729u64) == 1008733316382633260u64
        && (3241292945008128050u64 ^ 380043435898306560u64) == 3007645610561007666u64
        && rotl(6043719951361561729u64, 45u64) == 1914076553485535963u64
        && rotl(2922809869868169223u64, 23u64) == 838724769855850484u64
        && (18125124148271158730u64 << 17u64) == 13890085439002640384u64
        && (3007645610561007666u64 ^ 1008733316382633260u64) == 2612914772174626078u64
        && (1914076553485535963u64 ^ 18125124148271158730u64) == 16220077009771323153u64
        && (18125124148271158730u64 ^ 2612914772174626078u64) == 16126141519044823252u64
        && (1008733316382633260u64 ^ 16220077009771323153u64) == 17070603571435729469u64
        && (2612914772174626078u64 ^ 13890085439002640384u64) == 16465599188093295902u64
        && rotl(16220077009771323153u64, 45u64) == 14691371056149776796u64
        && rotl(13315230553875954649u64, 23u64) == 15141412138026558617u64
        && (16126141519044823252u64 << 17u64) == 2344986381520470016u64
        && (16465599188093295902u64 ^ 17070603571435729469u64) == 605585406652722979u64
        && (14691371056149776796u64 ^ 16126141519044823252u64) == 1452881911593238856u64
        && (16126141519044823252u64 ^ 605585406652722979u64) == 15541052589837281271u64
        && (17070603571435729469u64 ^ 1452881911593238856u64) == 17928649692400055157u64
        && (605585406652722979u64 ^ 2344986381520470016u64) == 2948846242091380515u64
        && rotl(1452881911593238856u64, 45u64) == 6929072272838546467u64
        && rotl(6410977891529050008u64, 23u64) == 3924812737089928239u64
        && (15541052589837281271u64 << 17u64) == 15130715774893555712u64
        && (2948846242091380515u64 ^ 17928649692400055157u64) == 14997888286418132054u64
        && (6929072272838546467u64 ^ 15541052589837281271u64) == 13224233685070820308u64
        && (15541052589837281271u64 ^ 14997888286418132054u64) == 544894952977185697u64
        && (17928649692400055157u64 ^ 13224233685070820308u64) == 5713574373740069025u64
        && (14997888286418132054u64 ^ 15130715774893555712u64) == 132902625709382742u64
        && rotl(13224233685070820308u64, 45u64) == 15454831031987672876u64
        && rotl(2721661332018190285u64, 23u64) == 5178838493842039460u64
        && (544894952977185697u64 << 17u64) == 13124967296009371648u64
        && (132902625709382742u64 ^ 5713574373740069025u64) == 5661758814053113079u64
        && (15454831031987672876u64 ^ 544894952977185697u64) == 15129084156771085453u64
        && (544894952977185697u64 ^ 5661758814053113079u64) == 5268438290654635862u64
        && (5713574373740069025u64 ^ 15129084156771085453u64) == 11439139192846281772u64
        && (5661758814053113079u64 ^ 13124967296009371648u64) == 17922034669047553271u64
        && rotl(15129084156771085453u64, 45u64) == 10777600161572733866u64
        && rotl(3769995280709464022u64, 23u64) == 6765474368829663451u64
        && (5268438290654635862u64 << 17u64) == 9325977441076510720u64
        && (17922034669047553271u64 ^ 11439139192846281772u64) == 7352170297137131739u64
        && (10777600161572733866u64 ^ 5268438290654635862u64) == 15892352651035501820u64
        && (5268438290654635862u64 ^ 7352170297137131739u64) == 3392731525345728397u64
        && (11439139192846281772u64 ^ 15892352651035501820u64) == 4770164083811715280u64
        && (7352170297137131739u64 ^ 9325977441076510720u64) == 16673628727974129883u64
        && rotl(15892352651035501820u64, 45u64) == 12438831745566055750u64
        && rotl(17208995829377771030u64, 23u64) == 4885172850081098065u64) by (bit_vector);
    assert(splitmix_counter(1u64, 1) == 11400714819323198486u64);
    assert((11400714825904921331u64).wrapping_mul(SPLITMIX_MUL1) == 12497766466719209627u64);
    assert((12497766553993467086u64).wrapping_mul(SPLITMIX_MUL2) == 10451216384067503898u64);
    assert(splitmix_mix(11400714819323198486u64) == 10451216379200822465u64);
    assert(splitmix_counter(1u64, 2) == 4354685564936845355u64);
    assert((4354685560920421856u64).wrapping_mul(SPLITMIX_MUL1) == 7727250427402473184u64);
    assert((7727250483648783541u64).wrapping_mul(SPLITMIX_MUL2) == 13757245205476144935u64);
    assert(splitmix_mix(4354685564936845355u64) == 13757245211066428519u64);
    assert(splitmix_counter(1u64, 3) == 15755400384260043840u64);
    assert((15755400395423662321u64).wrapping_mul(SPLITMIX_MUL1) == 17358980269446333225u64);
    assert((17358980226569376128u64).wrapping_mul(SPLITMIX_MUL2) == 17911839290532630656u64);
    assert(splitmix_mix(15755400384260043840u64) == 17911839290282890590u64);
    assert(splitmix_counter(1u64, 4) == 8709371129873690709u64);
    assert((8709371121840843714u64).wrapping_mul(SPLITMIX_MUL1) == 6136710293698930994u64);
    assert((6136710249187854017u64).wrapping_mul(SPLITMIX_MUL2) == 8196980750055228459u64);
    assert(splitmix_mix(8709371129873690709u64) == 8196980753821780235u64);
    assert((10451216379200822465u64).wrapping_add(8196980753821780235u64) == 201453059313051084u64);
    assert((4520385402804200922u64).wrapping_add(10451216379200822465u64) == 14971601782005023387u64);
    assert((6782463769496680877u64).wrapping_add(9560466793901207929u64) == 16342930563397888806u64);
    assert((6999185725735397088u64).wrapping_add(6782463769496680877u64) == 13781649495232077965u64);
    assert((1008733316382633260u64).wrapping_add(1914076553485535963u64) == 2922809869868169223u64);
    assert((838724769855850484u64).wrapping_add(1008733316382633260u64) == 1847458086238483744u64);
    assert((17070603571435729469u64).wrapping_add(14691371056149776796u64) == 13315230553875954649u64);
    assert((15141412138026558617u64).wrapping_add(17070603571435729469u64) == 13765271635752736470u64);
    assert((17928649692400055157u64).wrapping_add(6929072272838546467u64) == 6410977891529050008u64);
    assert((3924812737089928239u64).wrapping_add(17928649692400055157u64) == 3406718355780431780u64);
    assert((5713574373740069025u64).wrapping_add(15454831031987672876u64) == 2721661332018190285u64);
    assert((5178838493842039460u64).wrapping_add(5713574373740069025u64) == 10892412867582108485u64);
    assert((11439139192846281772u64).wrapping_add(10777600161572733866u64) == 3769995280709464022u64);
    assert((6765474368829663451u64).wrapping_add(11439139192846281772u64) == 18204613561675945223u64);
    assert((4770164083811715280u64).wrapping_add(12438831745566055750u64) == 17208995829377771030u64);
    assert((4885172850081098065u64).wrapping_add(4770164083811715280u64) == 9655336933892813345u64);
    assert(seeded_state(1u64) =~= seq![10451216379200822465u64, 13757245211066428519u64, 17911839290282890590u64, 8196980753821780235u64]);
    assert(xoshiro_step(seq![10451216379200822465u64, 13757245211066428519u64, 17911839290282890590u64, 8196980753821780235u64]) =~= seq![6782463769496680877u64, 15524473765000832504u64, 8276283643026868639u64, 9560466793901207929u64]);
    assert(xoshiro_step(seq![6782463769496680877u64, 15524473765000832504u64, 8276283643026868639u64, 9560466793901207929u64]) =~= seq![1008733316382633260u64, 18125124148271158730u64, 3007645610561007666u64, 1914076553485535963u64]);
    assert(xoshiro_step(seq![1008733316382633260u64, 18125124148271158730u64, 3007645610561007666u64, 1914076553485535963u64]) =~= seq![17070603571435729469u64, 16126141519044823252u64, 16465599188093295902u64, 14691371056149776796u64]);
    assert(xoshiro_step(seq![17070603571435729469u64, 16126141519044823252u64, 16465599188093295902u64, 14691371056149776796u64]) =~= seq![17928649692400055157u64, 15541052589837281271u64, 2948846242091380515u64, 6929072272838546467u64]);
    assert(xoshiro_step(seq![17928649692400055157u64, 15541052589837281271u64, 2948846242091380515u64, 6929072272838546467u64]) =~= seq![5713574373740069025u64, 544894952977185697u64, 132902625709382742u64, 15454831031987672876u64]);
    assert(xoshiro_step(seq![5713574373740069025u64, 544894952977185697u64, 132902625709382742u64, 15454831031987672876u64]) =~= seq![11439139192846281772u64, 5268438290654635862u64, 17922034669047553271u64, 10777600161572733866u64]);
    assert(xoshiro_step(seq![11439139192846281772u64, 5268438290654635862u64, 17922034669047553271u64, 10777600161572733866u64]) =~= seq![4770164083811715280u64, 3392731525345728397u64, 16673628727974129883u64, 12438831745566055750u64]);
    reveal_with_fuel(xoshiro_stream, 9);
    assert(xoshiro_output(seq![10451216379200822465u64, 13757245211066428519u64, 17911839290282890590u64, 8196980753821780235u64]) == 14971601782005023387u64);
    assert(xoshiro_output(seq![6782463769496680877u64, 15524473765000832504u64, 8276283643026868639u64, 9560466793901207929u64]) == 13781649495232077965u64);
    assert(xoshiro_output(seq![1008733316382633260u64, 18125124148271158730u64, 3007645610561007666u64, 1914076553485535963u64]) == 1847458086238483744u64);
    assert(xoshiro_output(seq![17070603571435729469u64, 16126141519044823252u64, 16465599188093295902u64, 14691371056149776796u64]) == 13765271635752736470u64);
    assert(xoshiro_output(seq![17928649692400055157u64, 15541052589837281271u64, 2948846242091380515u64, 6929072272838546467u64]) == 3406718355780431780u64);
    assert(xoshiro_output(seq![5713574373740069025u64, 544894952977185697u64, 132902625709382742u64, 15454831031987672876u64]) == 10892412867582108485u64);
    assert(xoshiro_output(seq![11439139192846281772u64, 5268438290654635862u64, 17922034669047553271u64, 10777600161572733866u64]) == 18204613561675945223u64);
    assert(xoshiro_output(seq![4770164083811715280u64, 3392731525345728397u64, 16673628727974129883u64, 12438831745566055750u64]) == 9655336933892813345u64);
}


/// The reference `xoshiro256++` stream from seed 42: its first eight
/// outputs.
pub proof fn law_reference_stream_seed_42()
    ensures
        xoshiro_stream(seeded_state(42), 0) == 15021278609987233951u64,
        xoshiro_stream(seeded_state(42), 1) == 5881210131331364753u64,
        xoshiro_stream(seeded_state(42), 2) == 18149643915985481100u64,
        xoshiro_stream(seeded_state(42), 3) == 12933668939759105464u64,
        xoshiro_stream(seeded_state(42), 4) == 14637574242682825331u64,
        xoshiro_stream(seeded_state(42), 5) == 10848501901068131965u64,
        xoshiro_stream(seeded_state(42), 6) == 2312344417745909078u64,
        xoshiro_stream(seeded_state(42), 7) == 11162538943635311430u64,
{
    reveal_with_fuel(splitmix_counter, 5);
    assert((11400714819323198527u64 ^ (11400714819323198527u64 >> 30u64)) == 11400714825904921306u64
        && (18289684038287092106u64 ^ (18289684038287092106u64 >> 27u64)) == 18289683946117250769u64
        && (13679457537660095195u64 ^ (13679457537660095195u64 >> 31u64)) == 13679457532755275413u64
        && (4354685564936845396u64 ^ (4354685564936845396u64 >> 30u64)) == 4354685560920421791u64
        && (15407538483995146983u64 ^ (15407538483995146983u64 >> 27u64)) == 15407538374644508972u64
        && (2949826092954367844u64 ^ (2949826092954367844u64 >> 31u64)) == 2949826092126892291u64
        && (15755400384260043881u64 ^ (15755400384260043881u64 >> 30u64)) == 15755400395423662296u64
        && (4704153767304664088u64 ^ (4704153767304664088u64 >> 27u64)) == 4704153732258122167u64
        && (5139283750788223485u64 ^ (5139283750788223485u64 >> 31u64)) == 5139283748462763858u64
        && (8709371129873690750u64 ^ (8709371129873690750u64 >> 30u64)) == 8709371121840843753u64
        && (8907235089227147361u64 ^ (8907235089227147361u64 >> 27u64)) == 8907235026741758849u64
        && (6349198063213682795u64 ^ (6349198063213682795u64 >> 31u64)) == 6349198060258255764u64
        && rotl(1581911519303979561u64, 23u64) == 1341821077231958538u64
        && (2949826092126892291u64 << 17u64) == 14296506377534046208u64
        && (5139283748462763858u64 ^ 13679457532755275413u64) == 18051928626225803719u64
        && (6349198060258255764u64 ^ 2949826092126892291u64) == 8138852029942207127u64
        && (2949826092126892291u64 ^ 18051928626225803719u64) == 15162131492471177412u64
        && (13679457532755275413u64 ^ 8138852029942207127u64) == 14781993660996615170u64
        && (18051928626225803719u64 ^ 14296506377534046208u64) == 4387123674275312071u64
        && rotl(8138852029942207127u64, 45u64) == 9390829987253819269u64
        && rotl(5726079574540882823u64, 23u64) == 9545960544044301199u64
        && (15162131492471177412u64 << 17u64) == 7819688231041499136u64
        && (4387123674275312071u64 ^ 14781993660996615170u64) == 17421613678702464453u64
        && (9390829987253819269u64 ^ 15162131492471177412u64) == 5780467277897635649u64
        && (15162131492471177412u64 ^ 17421613678702464453u64) == 2570630787131477249u64
        && (14781993660996615170u64 ^ 5780467277897635649u64) == 11321038696294968131u64
        && (17421613678702464453u64 ^ 7819688231041499136u64) == 11331932227193638341u64
        && rotl(5780467277897635649u64, 45u64) == 8279914124659105243u64
        && rotl(1154208747244521758u64, 23u64) == 6828605219690512969u64
        && (2570630787131477249u64 << 17u64) == 7938024592025714688u64
        && (11331932227193638341u64 ^ 11321038696294968131u64) == 26868646222587526u64
        && (8279914124659105243u64 ^ 2570630787131477249u64) == 5855978123785146586u64
        && (2570630787131477249u64 ^ 26868646222587526u64) == 2590629650289322887u64
        && (11321038696294968131u64 ^ 5855978123785146586u64) == 14724789073754520473u64
        && (26868646222587526u64 ^ 7938024592025714688u64) == 7959817307922065030u64
        && rotl(5855978123785146586u64, 45u64) == 9375168587437865237u64
        && rotl(5653213587482834094u64, 23u64) == 16655623939714136607u64
        && (2590629650289322887u64 << 17u64) == 9791357950412849152u64
        && (7959817307922065030u64 ^ 14724789073754520473u64) == 11686284742923361567u64
        && (9375168587437865237u64 ^ 2590629650289322887u64) == 11666726397148435090u64
        && (2590629650289322887u64 ^ 11686284742923361567u64) == 9357853297271469720u64
        && (14724789073754520473u64 ^ 11666726397148435090u64) == 7903954225905035531u64
        && (11686284742923361567u64 ^ 9791357950412849152u64) == 2724644940759801119u64
        && rotl(11666726397148435090u64, 45u64) == 10543582298886573110u64
        && rotl(792451082057025u64, 23u64) == 6733620016777789800u64
        && (9357853297271469720u64 << 17u64) == 10087174944282640384u64
        && (2724644940759801119u64 ^ 7903954225905035531u64) == 5224068221971854356u64
        && (10543582298886573110u64 ^ 9357853297271469720u64) == 1409505477195102894u64
        && (9357853297271469720u64 ^ 5224068221971854356u64) == 14529276094648713868u64
        && (7903954225905035531u64 ^ 1409505477195102894u64) == 9097251175449367461u64
        && (5224068221971854356u64 ^ 10087174944282640384u64) == 14088181525258040340u64
        && rotl(1409505477195102894u64, 45u64) == 14940061133522366373u64
        && rotl(5590568235262182218u64, 23u64) == 1751250725618764504u64
        && (14529276094648713868u64 << 17u64) == 13205084316953477120u64
        && (14088181525258040340u64 ^ 9097251175449367461u64) == 13671991456503687089u64
        && (14940061133522366373u64 ^ 14529276094648713868u64) == 502039006455065897u64
        && (14529276094648713868u64 ^ 13671991456503687089u64) == 8367389496430257469u64
        && (9097251175449367461u64 ^ 502039006455065897u64) == 8703334302836784780u64
        && (13671991456503687089u64 ^ 13205084316953477120u64) == 791870421204723633u64
        && rotl(502039006455065897u64, 45u64) == 11359521777047445604u64
        && rotl(1616112006174678768u64, 23u64) == 12055754188618675914u64
        && (8367389496430257469u64 << 17u64) == 16200661852734750720u64
        && (791870421204723633u64 ^ 8703334302836784780u64) == 8229551636293687613u64
        && (11359521777047445604u64 ^ 8367389496430257469u64) == 16842284706672493913u64
        && (8367389496430257469u64 ^ 8229551636293687613u64) == 444675446249520128u64
        && (8703334302836784780u64 ^ 16842284706672493913u64) == 10480902020225809365u64
        && (8229551636293687613u64 ^ 16200661852734750720u64) == 10583861007572998461u64
        && rotl(16842284706672493913u64, 45u64) == 12153875327870212966u64
        && rotl(4188033274386470715u64, 23u64) == 681636923409502065u64) by (bit_vector);
    assert(splitmix_counter(42u64, 1) == 11400714819323198527u64);
    assert((11400714825904921306u64).wrapping_mul(SPLITMIX_MUL1) == 18289684038287092106u64);
    assert((18289683946117250769u64).wrapping_mul(SPLITMIX_MUL2) == 13679457537660095195u64);
    assert(splitmix_mix(11400714819323198527u64) == 13679457532755275413u64);
    assert(splitmix_counter(42u64, 2) == 4354685564936845396u64);
    assert((4354685560920421791u64).wrapping_mul(SPLITMIX_MUL1) == 15407538483995146983u64);
    assert((15407538374644508972u64).wrapping_mul(SPLITMIX_MUL2) == 2949826092954367844u64);
    assert(splitmix_mix(4354685564936845396u64) == 2949826092126892291u64);
    assert(splitmix_counter(42u64, 3) == 15755400384260043881u64);
    assert((15755400395423662296u64).wrapping_mul(SPLITMIX_MUL1) == 4704153767304664088u64);
    assert((4704153732258122167u64).wrapping_mul(SPLITMIX_MUL2) == 5139283750788223485u64);
    assert(splitmix_mix(15755400384260043881u64) == 5139283748462763858u64);
    assert(splitmix_counter(42u64, 4) == 8709371129873690750u64);
    assert((8709371121840843753u64).wrapping_mul(SPLITMIX_MUL1) == 8907235089227147361u64);
    assert((8907235026741758849u64).wrapping_mul(SPLITMIX_MUL2) == 6349198063213682795u64);
    assert(splitmix_mix(8709371129873690750u64) == 6349198060258255764u64);
    assert((13679457532755275413u64).wrapping_add(6349198060258255764u64) == 1581911519303979561u64);
    assert((1341821077231958538u64).wrapping_add(13679457532755275413u64) == 15021278609987233951u64);
    assert((14781993660996615170u64).wrapping_add(9390829987253819269u64) == 5726079574540882823u64);
    assert((9545960544044301199u64).wrapping_add(14781993660996615170u64) == 5881210131331364753u64);
    assert((11321038696294968131u64).wrapping_add(8279914124659105243u64) == 1154208747244521758u64);
    assert((6828605219690512969u64).wrapping_add(11321038696294968131u64) == 18149643915985481100u64);
    assert((14724789073754520473u64).wrapping_add(9375168587437865237u64) == 5653213587482834094u64);
    assert((16655623939714136607u64).wrapping_add(14724789073754520473u64) == 12933668939759105464u64);
    assert((7903954225905035531u64).wrapping_add(10543582298886573110u64) == 792451082057025u64);
    assert((6733620016777789800u64).wrapping_add(7903954225905035531u64) == 14637574242682825331u64);
    assert((9097251175449367461u64).wrapping_add(14940061133522366373u64) == 5590568235262182218u64);
    assert((1751250725618764504u64).wrapping_add(9097251175449367461u64) == 10848501901068131965u64);
    assert((8703334302836784780u64).wrapping_add(11359521777047445604u64) == 1616112006174678768u64);
    assert((12055754188618675914u64).wrapping_add(8703334302836784780u64) == 2312344417745909078u64);
    assert((10480902020225809365u64).wrapping_add(12153875327870212966u64) == 4188033274386470715u64);
    assert((681636923409502065u64).wrapping_add(10480902020225809365u64) == 11162538943635311430u64);
    assert(seeded_state(42u64) =~= seq![13679457532755275413u64, 2949826092126892291u64, 5139283748462763858u64, 6349198060258255764u64]);
    assert(xoshiro_step(seq![13679457532755275413u64, 2949826092126892291u64, 5139283748462763858u64, 6349198060258255764u64]) =~= seq![14781993660996615170u64, 15162131492471177412u64, 4387123674275312071u64, 9390829987253819269u64]);
    assert(xoshiro_step(seq![14781993660996615170u64, 15162131492471177412u64, 4387123674275312071u64, 9390829987253819269u64]) =~= seq![11321038696294968131u64, 2570630787131477249u64, 11331932227193638341u64, 8279914124659105243u64]);
    assert(xoshiro_step(seq![11321038696294968131u64, 2570630787131477249u64, 11331932227193638341u64, 8279914124659105243u64]) =~= seq![14724789073754520473u64, 2590629650289322887u64, 7959817307922065030u64, 9375168587437865237u64]);
    assert(xoshiro_step(seq![14724789073754520473u64, 2590629650289322887u64, 7959817307922065030u64, 9375168587437865237u64]) =~= seq![7903954225905035531u64, 9357853297271469720u64, 2724644940759801119u64, 10543582298886573110u64]);
    assert(xoshiro_step(seq![7903954225905035531u64, 9357853297271469720u64, 2724644940759801119u64, 10543582298886573110u64]) =~= seq![9097251175449367461u64, 14529276094648713868u64, 14088181525258040340u64, 14940061133522366373u64]);
    assert(xoshiro_step(seq![9097251175449367461u64, 14529276094648713868u64, 14088181525258040340u64, 14940061133522366373u64]) =~= seq![8703334302836784780u64, 8367389496430257469u64, 791870421204723633u64, 11359521777047445604u64]);
    assert(xoshiro_step(seq![8703334302836784780u64, 8367389496430257469u64, 791870421204723633u64, 11359521777047445604u64]) =~= seq![10480902020225809365u64, 444675446249520128u64, 10583861007572998461u64, 12153875327870212966u64]);
    reveal_with_fuel(xoshiro_stream, 9);
    assert(xoshiro_output(seq![13679457532755275413u64, 2949826092126892291u64, 5139283748462763858u64, 6349198060258255764u64]) == 15021278609987233951u64);
    assert(xoshiro_output(seq![14781993660996615170u64, 15162131492471177412u64, 4387123674275312071u64, 9390829987253819269u64]) == 5881210131331364753u64);
    assert(xoshiro_output(seq![11321038696294968131u64, 2570630787131477249u64, 11331932227193638341u64, 8279914124659105243u64]) == 18149643915985481100u64);
    assert(xoshiro_output(seq![14724789073754520473u64, 2590629650289322887u64, 7959817307922065030u64, 9375168587437865237u64]) == 12933668939759105464u64);
    assert(xoshiro_output(seq![7903954225905035531u64, 9357853297271469720u64, 2724644940759801119u64, 10543582298886573110u64]) == 14637574242682825331u64);
    assert(xoshiro_output(seq![9097251175449367461u64, 14529276094648713868u64, 14088181525258040340u64, 14940061133522366373u64]) == 10848501901068131965u64);
    assert(xoshiro_output(seq![8703334302836784780u64, 8367389496430257469u64, 791870421204723633u64, 11359521777047445604u64]) == 2312344417745909078u64);
    assert(xoshiro_output(seq![10480902020225809365u64, 444675446249520128u64, 10583861007572998461u64, 12153875327870212966u64]) == 11162538943635311430u64);
}


} // verus!
