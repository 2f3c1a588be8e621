//! The MusicBrainz identifier: a SHA-1 over the format tag, the track
//! count, the audio leadout and every audio sector, each hashed as uppercase
//! hex text and padded out to 99 track slots.

use vstd::prelude::*;

use crate::Toc;
use crate::ctdb::hex8_blocks;
use crate::ctdb::zero_bytes;
use crate::TocView;
use crate::shab64::ShaB64;
use crate::shab64::sha1_digest;
use crate::shab64::sha1_of;
use crate::text::hex_fixed_upper_bytes;
use crate::text::push_hex2_upper_bytes;
use crate::text::push_hex8_upper_bytes;

verus! {

/// The exact byte text the MusicBrainz derivation hashes: the literal tag
/// `01`, two hex digits of track count, eight of the audio leadout, eight of
/// every audio sector as it stands, then all-zero blocks up to 99 slots.
pub open spec fn mb_hash_input(v: TocView) -> Seq<u8> {
    seq![48u8, 49u8] + hex_fixed_upper_bytes(v.audio.len() as nat, 2) + hex_fixed_upper_bytes(
        v.spec_audio_leadout() as nat,
        8,
    ) + hex8_blocks(v.audio) + zero_bytes(((99 - v.audio.len()) * 8) as nat)
}

impl Toc {
    /// The MusicBrainz identifier: the SHA-1 of [`mb_hash_input`], wrapped
    /// for base64 rendering.
    pub fn musicbrainz_id(&self) -> (r: ShaB64)
        requires
            self@.wf(),
        ensures
            r@ == sha1_of(mb_hash_input(self@)),
            r.wf(),
    {
        let sectors = self.audio_sectors();
        let len = sectors.len();
        let mut buf: Vec<u8> = Vec::new();
        buf.push(48);
        buf.push(49);
        proof {
            assert(buf@ =~= seq![48u8, 49u8]);
        }
        push_hex2_upper_bytes(&mut buf, len as u8);
        push_hex8_upper_bytes(&mut buf, self.audio_leadout());
        let ghost head = buf@;
        let mut i: usize = 0;
        proof {
            assert(head + hex8_blocks(self@.audio.subrange(0, 0)) =~= head);
        }
        while i < len
            invariant
                i <= len,
                len == self@.audio.len(),
                sectors@ == self@.audio,
                buf@ == head + hex8_blocks(self@.audio.subrange(0, i as int)),
            decreases len - i,
        {
            push_hex8_upper_bytes(&mut buf, sectors[i]);
            proof {
                assert(self@.audio.subrange(0, i + 1).drop_last() =~= self@.audio.subrange(
                    0,
                    i as int,
                ));
                assert(self@.audio.subrange(0, i + 1).last() == self@.audio[i as int]);
                assert(buf@ =~= head + hex8_blocks(self@.audio.subrange(0, i + 1)));
            }
            i = i + 1;
        }
        proof {
            assert(self@.audio.subrange(0, len as int) =~= self@.audio);
        }
        let pad = (99 - len) * 8;
        let mut j: usize = 0;
        let ghost blocks = buf@;
        while j < pad
            invariant
                j <= pad,
                buf@ == blocks + zero_bytes(j as nat),
            decreases pad - j,
        {
            buf.push(48);
            proof {
                assert(blocks + zero_bytes((j + 1) as nat) =~= (blocks + zero_bytes(
                    j as nat,
                )).push(48u8));
            }
            j = j + 1;
        }
        proof {
            assert(buf@ =~= mb_hash_input(self@));
        }
        let digest = sha1_digest(&buf);
        ShaB64::from_digest(digest)
    }
}

} // verus!
