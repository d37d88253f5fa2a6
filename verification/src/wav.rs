//! The WAV container the voice sender wraps each 35 ms of samples
//! in before cutting the result into datagram-sized chunks: the
//! canonical 44-byte RIFF/WAVE header followed by the raw sample
//! bytes.

use vstd::prelude::*;

use crate::endian::{spec_u16_to_le_bytes, spec_u32_to_le_bytes, u16_to_le_vec, u32_to_le_vec};

verus! {

/// The complete WAV file for the given sample bytes: the RIFF
/// header, the format chunk and the data chunk, little-endian
/// throughout.
pub open spec fn spec_wav_file(
    samples: Seq<u8>,
    format: u16,
    channels: u16,
    sample_rate: u32,
    bits: u16,
) -> Seq<u8>
    recommends
        samples.len() + 36 <= u32::MAX,
        channels * (bits / 8) <= u16::MAX,
        sample_rate * (channels * (bits / 8)) <= u32::MAX,
{
    let data_len = samples.len() as u32;
    let block_align = (channels * (bits / 8)) as u16;
    let byte_rate = (sample_rate * (channels * (bits / 8))) as u32;
    seq![0x52u8, 0x49u8, 0x46u8, 0x46u8]  // "RIFF"
     + spec_u32_to_le_bytes((36 + data_len) as u32) + seq![
        0x57u8,
        0x41u8,
        0x56u8,
        0x45u8,
    ]  // "WAVE"
     + seq![0x66u8, 0x6du8, 0x74u8, 0x20u8]  // "fmt "
     + spec_u32_to_le_bytes(16) + spec_u16_to_le_bytes(format) + spec_u16_to_le_bytes(channels)
        + spec_u32_to_le_bytes(sample_rate) + spec_u32_to_le_bytes(byte_rate)
        + spec_u16_to_le_bytes(block_align) + spec_u16_to_le_bytes(bits) + seq![
        0x64u8,
        0x61u8,
        0x74u8,
        0x61u8,
    ]  // "data"
     + spec_u32_to_le_bytes(data_len) + samples
}

/// Builds the WAV file for one buffer of samples.
pub fn build_wav_file(
    samples: &Vec<u8>,
    format: u16,
    channels: u16,
    sample_rate: u32,
    bits: u16,
) -> (r: Vec<u8>)
    requires
        samples@.len() + 36 <= u32::MAX,
        channels * (bits / 8) <= u16::MAX,
        sample_rate * (channels * (bits / 8)) <= u32::MAX,
    ensures
        r@ == spec_wav_file(samples@, format, channels, sample_rate, bits),
        r@.len() == samples@.len() + 44,
{
    let data_len: u32 = samples.len() as u32;
    let block_align: u16 = channels * (bits / 8);
    let byte_rate: u32 = sample_rate * (block_align as u32);
    let mut r: Vec<u8> = Vec::new();
    r.push(0x52);
    r.push(0x49);
    r.push(0x46);
    r.push(0x46);
    let mut chunk_size = u32_to_le_vec(36 + data_len);
    r.append(&mut chunk_size);
    r.push(0x57);
    r.push(0x41);
    r.push(0x56);
    r.push(0x45);
    r.push(0x66);
    r.push(0x6d);
    r.push(0x74);
    r.push(0x20);
    let mut fmt_len = u32_to_le_vec(16);
    r.append(&mut fmt_len);
    let mut fmt_code = u16_to_le_vec(format);
    r.append(&mut fmt_code);
    let mut chans = u16_to_le_vec(channels);
    r.append(&mut chans);
    let mut rate = u32_to_le_vec(sample_rate);
    r.append(&mut rate);
    let mut brate = u32_to_le_vec(byte_rate);
    r.append(&mut brate);
    let mut balign = u16_to_le_vec(block_align);
    r.append(&mut balign);
    let mut bps = u16_to_le_vec(bits);
    r.append(&mut bps);
    r.push(0x64);
    r.push(0x61);
    r.push(0x74);
    r.push(0x61);
    let mut dlen = u32_to_le_vec(data_len);
    r.append(&mut dlen);
    proof {
        assert(r@ =~= spec_wav_file(samples@, format, channels, sample_rate, bits).take(44));
    }
    let mut i: usize = 0;
    while i < samples.len()
        invariant
            i <= samples@.len(),
            r@ == spec_wav_file(
                samples@,
                format,
                channels,
                sample_rate,
                bits,
            ).take(44 + i as int),
            samples@.len() + 36 <= u32::MAX,
            channels * (bits / 8) <= u16::MAX,
            sample_rate * (channels * (bits / 8)) <= u32::MAX,
        decreases samples@.len() - i,
    {
        r.push(samples[i]);
        i += 1;
        proof {
            assert(r@ =~= spec_wav_file(samples@, format, channels, sample_rate, bits).take(
                44 + i as int,
            ));
        }
    }
    proof {
        let w = spec_wav_file(samples@, format, channels, sample_rate, bits);
        assert(w.len() == 44 + samples@.len());
        assert(w.take(w.len() as int) =~= w);
    }
    r
}

} // verus!
