//! Audible cues.

use vstd::prelude::*;

verus! {

/// Short audible cues for long-running work finishing, so the user can look
/// away from a big scan or delete and still notice when it's done.
#[derive(Clone, Copy, Debug, PartialEq, Eq, Structural)]
pub enum Sound {
    /// Bright rising three-note chime.
    ScanFinished,
    /// Lower descending two-note chime, distinct from `ScanFinished`.
    DeleteFinished,
}

/// Samples per second.
pub const SAMPLE_RATE: u32 = 44_100;

impl Sound {
    /// The pitch in tenths of a hertz and the length in milliseconds of each
    /// note, played back to back.
    pub open spec fn tune(self) -> Seq<(u32, u32)> {
        match self {
            // C6, E6, G6
            Sound::ScanFinished => seq![(10465, 90), (13185, 90), (15680, 220)],
            // G5, C5
            Sound::DeleteFinished => seq![(7840, 110), (5233, 260)],
        }
    }

    /// The notes of [`Sound::tune`].
    pub fn notes(self) -> (r: Vec<(u32, u32)>)
        ensures
            r@ == self.tune(),
    {
        let mut notes: Vec<(u32, u32)> = Vec::new();
        match self {
            Sound::ScanFinished => {
                notes.push((10465, 90));
                notes.push((13185, 90));
                notes.push((15680, 220));
            },
            Sound::DeleteFinished => {
                notes.push((7840, 110));
                notes.push((5233, 260));
            },
        }
        assert(notes@ =~= self.tune());
        notes
    }
}

/// The two bytes of a number, the lower first.
pub open spec fn two_bytes(n: nat) -> Seq<u8> {
    seq![(n % 256) as u8, ((n / 256) % 256) as u8]
}

/// The four bytes of a number, the lowest first.
pub open spec fn four_bytes(n: nat) -> Seq<u8> {
    two_bytes(n % 65536) + two_bytes(n / 65536)
}

/// A sample as two bytes, in two's complement.
pub open spec fn sample_bytes(s: i16) -> Seq<u8> {
    two_bytes(
        if s >= 0 {
            s as nat
        } else {
            (s + 65536) as nat
        },
    )
}

/// The samples one after the other.
pub open spec fn samples_bytes(samples: Seq<i16>) -> Seq<u8>
    decreases samples.len(),
{
    if samples.len() == 0 {
        seq![]
    } else {
        samples_bytes(samples.drop_last()) + sample_bytes(samples.last())
    }
}

/// The head of a WAV file with `data_len` bytes of 16-bit mono samples.
pub open spec fn wav_head(data_len: nat) -> Seq<u8> {
    // "RIFF", the length of all that follows, "WAVE"
    seq![82u8, 73, 70, 70] + four_bytes(36 + data_len) + seq![87u8, 65, 86, 69]
        // "fmt ", the length of this chunk
         + seq![102u8, 109, 116, 32] + four_bytes(16)
        // PCM, mono
         + two_bytes(1) + two_bytes(1)
        // the sample rate and the byte rate
         + four_bytes(SAMPLE_RATE as nat) + four_bytes((SAMPLE_RATE * 2) as nat)
        // the bytes and the bits of a sample
         + two_bytes(2) + two_bytes(16)
        // "data", the length of the samples
         + seq![100u8, 97, 116, 97] + four_bytes(data_len)
}

/// A WAV file with the samples.
pub open spec fn wav_file(samples: Seq<i16>) -> Seq<u8> {
    wav_head(2 * samples.len()) + samples_bytes(samples)
}

fn push_two(out: &mut Vec<u8>, n: u32)
    requires
        n < 65536,
    ensures
        final(out)@ == old(out)@ + two_bytes(n as nat),
{
    out.push((n % 256) as u8);
    out.push(((n / 256) % 256) as u8);
    assert(out@ =~= old(out)@ + two_bytes(n as nat));
}

fn push_four(out: &mut Vec<u8>, n: u32)
    ensures
        final(out)@ == old(out)@ + four_bytes(n as nat),
{
    push_two(out, n % 65536);
    push_two(out, n / 65536);
    assert(out@ =~= old(out)@ + four_bytes(n as nat));
}

fn push_tag(out: &mut Vec<u8>, a: u8, b: u8, c: u8, d: u8)
    ensures
        final(out)@ == old(out)@ + seq![a, b, c, d],
{
    out.push(a);
    out.push(b);
    out.push(c);
    out.push(d);
    assert(out@ =~= old(out)@ + seq![a, b, c, d]);
}

/// Encodes samples as a WAV file. The format counts its bytes in 32 bits.
pub fn encode_wav(samples: &[i16]) -> (r: Vec<u8>)
    requires
        36 + 2 * samples@.len() <= u32::MAX,
    ensures
        r@ == wav_file(samples@),
{
    let data_len: u32 = samples.len() as u32 * 2;
    let mut out: Vec<u8> = Vec::new();
    push_tag(&mut out, 82, 73, 70, 70);
    push_four(&mut out, 36 + data_len);
    push_tag(&mut out, 87, 65, 86, 69);
    push_tag(&mut out, 102, 109, 116, 32);
    push_four(&mut out, 16);
    push_two(&mut out, 1);
    push_two(&mut out, 1);
    push_four(&mut out, SAMPLE_RATE);
    push_four(&mut out, SAMPLE_RATE * 2);
    push_two(&mut out, 2);
    push_two(&mut out, 16);
    push_tag(&mut out, 100, 97, 116, 97);
    push_four(&mut out, data_len);
    let ghost head = out@;
    assert(head =~= wav_head(2 * samples@.len()));
    let mut i: usize = 0;
    while i < samples.len()
        invariant
            i <= samples@.len(),
            out@ =~= head + samples_bytes(samples@.take(i as int)),
        decreases samples@.len() - i,
    {
        assert(samples@.take(i + 1).drop_last() =~= samples@.take(i as int));
        let s: i16 = samples[i];
        let n: u32 = if s >= 0 {
            s as u32
        } else {
            (s as i32 + 65536) as u32
        };
        push_two(&mut out, n);
        i = i + 1;
    }
    assert(samples@.take(samples@.len() as int) =~= samples@);
    out
}

proof fn lemma_samples_len(samples: Seq<i16>)
    ensures
        samples_bytes(samples).len() == 2 * samples.len(),
    decreases samples.len(),
{
    if samples.len() > 0 {
        lemma_samples_len(samples.drop_last());
    }
}

/// A WAV file has the length that its head says.
pub proof fn law_wav_is_well_formed(samples: Seq<i16>)
    ensures
        wav_head(2 * samples.len()).len() == 44,
        wav_file(samples).len() == 44 + 2 * samples.len(),
        wav_file(samples).subrange(4, 8) == four_bytes((wav_file(samples).len() - 8) as nat),
        wav_file(samples).subrange(40, 44) == four_bytes((wav_file(samples).len() - 44) as nat),
{
    lemma_samples_len(samples);
    assert(wav_file(samples).subrange(4, 8) =~= four_bytes((36 + 2 * samples.len()) as nat));
    assert(wav_file(samples).subrange(40, 44) =~= four_bytes((2 * samples.len()) as nat));
}

/// The notes of the cues: three rising ones when a scan has finished, two falling
/// ones when a delete has, the last of each the longest.
pub proof fn law_cues_are_told_apart()
    ensures
        ({
            let up = Sound::ScanFinished.tune();
            let down = Sound::DeleteFinished.tune();
            &&& up.len() == 3 && down.len() == 2
            &&& up[0] == (10465u32, 90u32) && up[1] == (13185u32, 90u32) && up[2] == (
                15680u32,
                220u32,
            )
            &&& down[0] == (7840u32, 110u32) && down[1] == (5233u32, 260u32)
        }),
{
}

/// Where the samples stand in a WAV file: two bytes each behind the head, the
/// lower one first, a negative one as its complement.
pub proof fn law_samples_follow_the_head(samples: Seq<i16>, i: int)
    requires
        0 <= i < samples.len(),
    ensures
        ({
            let low = wav_file(samples)[44 + 2 * i] as int;
            let high = wav_file(samples)[44 + 2 * i + 1] as int;
            low + 256 * high == (if samples[i] >= 0 {
                samples[i] as int
            } else {
                samples[i] + 65536
            })
        }),
{
    law_wav_is_well_formed(samples);
    lemma_sample_at(samples, i);
    let head = wav_head(2 * samples.len());
    let body = samples_bytes(samples);
    lemma_samples_len(samples);
    assert(wav_file(samples)[44 + 2 * i] == body[2 * i]);
    assert(wav_file(samples)[44 + 2 * i + 1] == body[2 * i + 1]);
}

proof fn lemma_sample_at(samples: Seq<i16>, i: int)
    requires
        0 <= i < samples.len(),
    ensures
        2 * i + 1 < samples_bytes(samples).len(),
        samples_bytes(samples)[2 * i] + 256 * samples_bytes(samples)[2 * i + 1] == (if samples[i]
            >= 0 {
            samples[i] as int
        } else {
            samples[i] + 65536
        }),
    decreases samples.len(),
{
    let t = samples.drop_last();
    lemma_samples_len(samples);
    lemma_samples_len(t);
    if i < t.len() {
        lemma_sample_at(t, i);
        assert(samples_bytes(samples)[2 * i] == samples_bytes(t)[2 * i]);
        assert(samples_bytes(samples)[2 * i + 1] == samples_bytes(t)[2 * i + 1]);
    } else {
        let n = if samples[i] >= 0 {
            samples[i] as int
        } else {
            samples[i] + 65536
        };
        let own = sample_bytes(samples[i]);
        assert(samples_bytes(samples)[2 * i] == own[0]);
        assert(samples_bytes(samples)[2 * i + 1] == own[1]);
        assert(0 <= n < 65536);
        assert(own[0] == n % 256 && own[1] == n / 256);
    }
}

/// What the head of a WAV file says: one channel of 44100 samples a second, two
/// bytes each, and the marks that make it one.
pub proof fn law_wav_head_says_what_follows(data_len: nat)
    ensures
        ({
            let h = wav_head(data_len);
            &&& h.len() == 44
            // "RIFF", "WAVE", "fmt ", "data"
            &&& h.subrange(0, 4) == seq![82u8, 73, 70, 70]
            &&& h.subrange(8, 12) == seq![87u8, 65, 86, 69]
            &&& h.subrange(12, 16) == seq![102u8, 109, 116, 32]
            &&& h.subrange(36, 40) == seq![100u8, 97, 116, 97]
            // sixteen bytes of format: PCM, mono
            &&& h.subrange(16, 24) == seq![16u8, 0, 0, 0, 1, 0, 1, 0]
            // 44100 samples and 88200 bytes a second
            &&& h.subrange(24, 32) == seq![0x44u8, 0xac, 0, 0, 0x88, 0x58, 1, 0]
            // two bytes, sixteen bits a sample
            &&& h.subrange(32, 36) == seq![2u8, 0, 16, 0]
        }),
{
    let h = wav_head(data_len);
    assert(h.len() == 44);
    assert(h.subrange(0, 4) =~= seq![82u8, 73, 70, 70]);
    assert(h.subrange(8, 12) =~= seq![87u8, 65, 86, 69]);
    assert(h.subrange(12, 16) =~= seq![102u8, 109, 116, 32]);
    assert(h.subrange(36, 40) =~= seq![100u8, 97, 116, 97]);
    assert(h.subrange(16, 24) =~= seq![16u8, 0, 0, 0, 1, 0, 1, 0]);
    assert(h.subrange(24, 32) =~= seq![0x44u8, 0xac, 0, 0, 0x88, 0x58, 1, 0]);
    assert(h.subrange(32, 36) =~= seq![2u8, 0, 16, 0]);
}

/// How numbers are written in a WAV file: the lowest byte first.
pub proof fn law_numbers_are_written_low_byte_first(n: nat)
    requires
        n <= u32::MAX,
    ensures
        four_bytes(n).len() == 4,
        four_bytes(n)[0] + 256 * four_bytes(n)[1] + 65536 * four_bytes(n)[2] + 16777216
            * four_bytes(n)[3] == n,
{
    let b = four_bytes(n);
    let lo = n % 65536;
    let hi = n / 65536;
    assert(b[0] == lo % 256 && b[1] == (lo / 256) % 256 && b[2] == hi % 256 && b[3] == (hi / 256)
        % 256);
}

} // verus!
