use vstd::prelude::*;

use vstd::utf8::{decode_utf8, encode_utf8, valid_utf8};
use crate::bytes::{copy_range, push_word, push_zeros, read_word, string_from_utf8, word_at, word_bytes};
use crate::error::Error;
use crate::name::{r50_decode, r50_encode_word, r50_text, r50_word, r50_word_ok};
use super::zeros;

verus! {

/// The home block of a volume: block 1.
pub struct HomeBlock {
    pub bad_block_replacement_table: [u8; 130],
    pub init_restore: [u8; 38],
    pub bup_volume: Option<u8>,
    pub pack_cluster_size: u16,
    pub directory_start_block: u16,
    pub system_version: String,
    pub volume_id: String,
    pub owner_name: String,
    pub system_id: String,
}

/// The home block as a mathematical value.
pub struct HomeView {
    pub bad_block_replacement_table: Seq<u8>,
    pub init_restore: Seq<u8>,
    pub bup_volume: Option<u8>,
    pub pack_cluster_size: u16,
    pub directory_start_block: u16,
    pub system_version: Seq<char>,
    pub volume_id: Seq<char>,
    pub owner_name: Seq<char>,
    pub system_id: Seq<char>,
}

impl View for HomeBlock {
    type V = HomeView;

    open spec fn view(&self) -> HomeView {
        HomeView {
            bad_block_replacement_table: self.bad_block_replacement_table@,
            init_restore: self.init_restore@,
            bup_volume: self.bup_volume,
            pack_cluster_size: self.pack_cluster_size,
            directory_start_block: self.directory_start_block,
            system_version: self.system_version@,
            volume_id: self.volume_id@,
            owner_name: self.owner_name@,
            system_id: self.system_id@,
        }
    }
}

/// The twelve bytes of a text field: the first twelve bytes of the text,
/// filled up with spaces.
pub open spec fn text_field(text: Seq<char>) -> Seq<u8> {
    let bytes = encode_utf8(text);
    Seq::new(12, |i: int| if i < bytes.len() { bytes[i] } else { 0x20u8 })
}

/// The signature that marks a volume of a backup set.
pub open spec fn bup_signature() -> Seq<u8> {
    seq![0x42u8, 0x55u8, 0x51u8, 0x20u8, 0x20u8, 0x20u8, 0x20u8, 0x20u8, 0x20u8, 0x20u8, 0x20u8, 0x20u8]
}

/// Sum of the first `n` little-endian words of `buf`, kept to 16 bits.
pub open spec fn checksum(buf: Seq<u8>, n: int) -> u16
    decreases n,
{
    if n <= 0 {
        0
    } else {
        ((checksum(buf, n - 1) + word_at(buf, 2 * (n - 1))) % 65536) as u16
    }
}

/// The first 510 bytes of the home block: the replacement table at 0, the
/// restore area at 132, the backup signature and volume number at 170, the
/// cluster size, the first directory block and the system version at 466,
/// then the volume id, the owner and the system id, twelve bytes each.
pub open spec fn home_body(h: HomeView) -> Seq<u8> {
    h.bad_block_replacement_table + zeros(2) + h.init_restore + (match h.bup_volume {
        Some(n) => bup_signature() + seq![n],
        None => zeros(13),
    }) + zeros(283) + word_bytes(h.pack_cluster_size) + word_bytes(h.directory_start_block) + word_bytes(
        r50_word(h.system_version, 0),
    ) + text_field(h.volume_id) + text_field(h.owner_name) + text_field(h.system_id) + zeros(2)
}

/// The 512 bytes of the home block, the last word being the checksum of
/// the 255 words before it. A system version that RADIX-50 cannot hold is
/// refused.
pub open spec fn home_bytes(h: HomeView) -> Result<Seq<u8>, Error> {
    if !r50_word_ok(h.system_version, 0) {
        Err(Error::Format)
    } else {
        Ok(home_body(h) + word_bytes(checksum(home_body(h), 255)))
    }
}

/// The home block that 512 bytes hold. The checksum is not looked at.
pub open spec fn parsed_home(buf: Seq<u8>) -> Result<HomeView, Error> {
    if buf.len() < 512 {
        Err(Error::Format)
    } else if !valid_utf8(buf.subrange(472, 484)) || !valid_utf8(buf.subrange(484, 496)) || !valid_utf8(
        buf.subrange(496, 508),
    ) {
        Err(Error::Format)
    } else {
        Ok(
            HomeView {
                bad_block_replacement_table: buf.subrange(0, 130),
                init_restore: buf.subrange(132, 170),
                bup_volume: if buf.subrange(170, 182) == bup_signature() {
                    Some(buf[182])
                } else {
                    None
                },
                pack_cluster_size: word_at(buf, 466),
                directory_start_block: word_at(buf, 468),
                system_version: r50_text(seq![word_at(buf, 470)]),
                volume_id: decode_utf8(buf.subrange(472, 484)),
                owner_name: decode_utf8(buf.subrange(484, 496)),
                system_id: decode_utf8(buf.subrange(496, 508)),
            },
        )
    }
}

/// The home block of a new volume whose owner is `owner`.
pub open spec fn default_home(owner: Seq<char>) -> HomeView {
    HomeView {
        bad_block_replacement_table: zeros(130),
        init_restore: zeros(38),
        bup_volume: None,
        pack_cluster_size: 1,
        directory_start_block: 6,
        system_version: "V3A"@,
        volume_id: "RT11FS DC"@,
        owner_name: owner,
        system_id: "DECRT11A"@,
    }
}

/// Appends the twelve bytes of a text field.
fn push_text_field(out: &mut Vec<u8>, text: &str)
    ensures
        final(out)@ == old(out)@ + text_field(text@),
{
    let bytes = text.as_bytes();
    let n = bytes.len();
    let mut i: usize = 0;
    while i < 12
        invariant
            n == bytes@.len(),
            bytes@ == encode_utf8(text@),
            i <= 12,
            out@ == old(out)@ + text_field(text@).subrange(0, i as int),
        decreases 12 - i,
    {
        let b: u8 = if i < n { bytes[i] } else { 0x20 };
        out.push(b);
        i += 1;
        assert(out@ =~= old(out)@ + text_field(text@).subrange(0, i as int));
    }
    assert(text_field(text@).subrange(0, 12) =~= text_field(text@));
}

/// Sum of the first `n` little-endian words of `buf`, kept to 16 bits.
pub fn checksum_of(buf: &[u8], n: usize) -> (sum: u16)
    requires
        2 * n <= buf@.len(),
    ensures
        sum == checksum(buf@, n as int),
{
    let mut sum: u32 = 0;
    let total = buf.len();
    let mut i: usize = 0;
    while i < n
        invariant
            total == buf@.len(),
            2 * n <= buf@.len(),
            i <= n,
            sum == checksum(buf@, i as int),
        decreases n - i,
    {
        sum = (sum + read_word(buf, 2 * i) as u32) % 65536;
        i += 1;
    }
    sum as u16
}

/// The bytes `from..from + N` of `buf` as an array.
fn array_at<const N: usize>(buf: &[u8], from: usize) -> (out: [u8; N])
    requires
        from + N <= buf@.len(),
    ensures
        out@ == buf@.subrange(from as int, from + N),
{
    let mut out = [0u8; N];
    let total = buf.len();
    let mut i: usize = 0;
    while i < N
        invariant
            total == buf@.len(),
            from + N <= buf@.len(),
            i <= N,
            out@.len() == N,
            forall|j: int| 0 <= j < i ==> out@[j] == buf@[from + j],
        decreases N - i,
    {
        out[i] = buf[from + i];
        i += 1;
    }
    assert(out@ =~= buf@.subrange(from as int, from + N));
    out
}

impl HomeBlock {
    /// The home block of a new volume, owned by the user who runs the
    /// program.
    pub fn new() -> (h: HomeBlock)
        ensures
            h@ == default_home(h.owner_name@),
    {
        HomeBlock::owned_by(current_username().as_str())
    }

    /// The home block of a new volume whose owner is `owner`.
    pub fn owned_by(owner: &str) -> (h: HomeBlock)
        ensures
            h@ == default_home(owner@),
    {
        let h = HomeBlock {
            bad_block_replacement_table: [0u8; 130],
            init_restore: [0u8; 38],
            bup_volume: None,
            pack_cluster_size: 1,
            directory_start_block: 6,
            system_version: String::from_str("V3A"),
            volume_id: String::from_str("RT11FS DC"),
            owner_name: String::from_str(owner),
            system_id: String::from_str("DECRT11A"),
        };
        assert(h.bad_block_replacement_table@ =~= zeros(130));
        assert(h.init_restore@ =~= zeros(38));
        h
    }

    /// The 512 bytes of the home block.
    pub fn repr(&self) -> (r: Result<Vec<u8>, Error>)
        ensures
            crate::block::read_view(r) == home_bytes(self@),
            r matches Ok(bytes) ==> bytes@.len() == 512,
    {
        let version = match r50_encode_word(self.system_version.as_str()) {
            Some(w) => w,
            None => { return Err(Error::Format); },
        };
        let mut out: Vec<u8> = Vec::new();
        out.extend_from_slice(self.bad_block_replacement_table.as_slice());
        push_zeros(&mut out, 2);
        out.extend_from_slice(self.init_restore.as_slice());
        let ghost part1 = out@;
        assert(part1 =~= self@.bad_block_replacement_table + zeros(2) + self@.init_restore);
        match self.bup_volume {
            Some(n) => {
                out.push(0x42);
                out.push(0x55);
                out.push(0x51);
                let mut i: usize = 0;
                while i < 9
                    invariant
                        i <= 9,
                        out@ == part1 + seq![0x42u8, 0x55u8, 0x51u8] + Seq::new(i as nat, |j: int| 0x20u8),
                    decreases 9 - i,
                {
                    out.push(0x20);
                    i += 1;
                    assert(out@ =~= part1 + seq![0x42u8, 0x55u8, 0x51u8] + Seq::new(i as nat, |j: int| 0x20u8));
                }
                out.push(n);
                assert(out@ =~= part1 + (bup_signature() + seq![n]));
            },
            None => {
                push_zeros(&mut out, 13);
                assert(out@ =~= part1 + zeros(13));
            },
        }
        let ghost part2 = out@;
        push_zeros(&mut out, 283);
        push_word(&mut out, self.pack_cluster_size);
        push_word(&mut out, self.directory_start_block);
        push_word(&mut out, version);
        let ghost part3 = out@;
        assert(part3 =~= part2 + zeros(283) + word_bytes(self.pack_cluster_size) + word_bytes(
            self.directory_start_block,
        ) + word_bytes(r50_word(self@.system_version, 0)));
        push_text_field(&mut out, self.volume_id.as_str());
        push_text_field(&mut out, self.owner_name.as_str());
        push_text_field(&mut out, self.system_id.as_str());
        push_zeros(&mut out, 2);
        assert(out@ =~= home_body(self@));
        let sum = checksum_of(out.as_slice(), 255);
        push_word(&mut out, sum);
        Ok(out)
    }

    /// The home block that 512 bytes hold.
    pub fn from_repr(buf: &[u8]) -> (r: Result<HomeBlock, Error>)
        ensures
            match r {
                Ok(h) => parsed_home(buf@) == Ok::<HomeView, Error>(h@),
                Err(e) => parsed_home(buf@) == Err::<HomeView, Error>(e),
            },
    {
        if buf.len() < 512 {
            return Err(Error::Format);
        }
        let volume_id = match string_from_utf8(copy_range(buf, 472, 484)) {
            Some(s) => s,
            None => { return Err(Error::Format); },
        };
        let owner_name = match string_from_utf8(copy_range(buf, 484, 496)) {
            Some(s) => s,
            None => { return Err(Error::Format); },
        };
        let system_id = match string_from_utf8(copy_range(buf, 496, 508)) {
            Some(s) => s,
            None => { return Err(Error::Format); },
        };
        let mut signed = true;
        let mut i: usize = 0;
        assert(buf@.subrange(170, 170) =~= bup_signature().subrange(0, 0));
        while i < 12
            invariant
                buf@.len() >= 512,
                i <= 12,
                signed == (buf@.subrange(170, 170 + i) == bup_signature().subrange(0, i as int)),
            decreases 12 - i,
        {
            let want: u8 = if i == 0 { 0x42 } else if i == 1 { 0x55 } else if i == 2 { 0x51 } else { 0x20 };
            let ghost before = signed;
            if buf[170 + i] != want {
                signed = false;
            }
            i += 1;
            proof {
                let a = buf@.subrange(170, 170 + i);
                let b = bup_signature().subrange(0, i as int);
                if a == b {
                    assert(a[i - 1] == b[i - 1]);
                    assert(buf@.subrange(170, 170 + i - 1) =~= a.subrange(0, i - 1));
                    assert(bup_signature().subrange(0, i - 1) =~= b.subrange(0, i - 1));
                } else if before && buf@[170 + i - 1] == want {
                    assert(buf@.subrange(170, 170 + i - 1) == bup_signature().subrange(0, i - 1));
                    assert(a =~= buf@.subrange(170, 170 + i - 1).push(want));
                    assert(b =~= bup_signature().subrange(0, i - 1).push(want));
                }
            }
        }
        assert(bup_signature().subrange(0, 12) =~= bup_signature());
        let mut version: Vec<u16> = Vec::new();
        version.push(read_word(buf, 470));
        assert(version@ =~= seq![word_at(buf@, 470)]);
        Ok(
            HomeBlock {
                bad_block_replacement_table: array_at::<130>(buf, 0),
                init_restore: array_at::<38>(buf, 132),
                bup_volume: if signed { Some(buf[182]) } else { None },
                pack_cluster_size: read_word(buf, 466),
                directory_start_block: read_word(buf, 468),
                system_version: r50_decode(version.as_slice()),
                volume_id,
                owner_name,
                system_id,
            },
        )
    }

    /// The checksum that the block holds is the sum of its first 255 words.
    pub fn checksum_matches(buf: &[u8]) -> (ok: bool)
        requires
            buf@.len() >= 512,
        ensures
            ok == (word_at(buf@, 510) == checksum(buf@, 255)),
    {
        read_word(buf, 510) == checksum_of(buf, 255)
    }
}

/// `whoami::username`: the login name of the user who runs the program.
/// Nothing is known of it beforehand.
#[verifier::external_body]
fn current_username() -> (name: String)
{
    whoami::username()
}

} // verus!
