use vstd::prelude::*;

verus! {

pub const SOCK_STREAM: u32 = 1;
pub const SOCK_DGRAM: u32 = 2;
pub const SOCK_RAW: u32 = 3;
pub const AF_INET: u32 = 2;
pub const AF_INET6: u32 = 10;
pub const AF_UNIX: u32 = 1;

/// States of a TCP connection.
pub enum SocketState {
    Closed,
    Listen,
    SynSent,
    SynRecvd,
    Established,
    FinWait1,
    FinWait2,
    TimeWait,
    CloseWait,
    LastAck,
    Closing,
}

/// The big-endian 16-bit word made of bytes `2k` and `2k + 1`.
pub open spec fn word_at(data: Seq<u8>, k: int) -> int {
    data[2 * k] as int * 256 + data[2 * k + 1] as int
}

/// Sum of the first `n` big-endian words of `data`.
pub open spec fn word_sum(data: Seq<u8>, n: int) -> int
    decreases n,
{
    if n <= 0 {
        0
    } else {
        word_sum(data, n - 1) + word_at(data, n - 1)
    }
}

/// Sum of all words of `data`, a last odd byte counting as the high byte of
/// a word.
pub open spec fn inet_sum(data: Seq<u8>) -> int {
    word_sum(data, (data.len() / 2) as int) + if data.len() % 2 == 1 {
        data[data.len() - 1] as int * 256
    } else {
        0
    }
}

/// Folds the carries above 16 bits back into the low 16 bits until none is
/// left.
pub open spec fn fold16(s: u32) -> u32
    decreases s,
{
    if s > 0xffff {
        proof {
            assert(s > 0xffff ==> (s & 0xffff) + (s >> 16u32) < s) by (bit_vector);
        }
        fold16(((s & 0xffff) + (s >> 16u32)) as u32)
    } else {
        s
    }
}

/// The Internet checksum of `data`: the one's complement of its folded
/// word sum.
pub open spec fn inet_checksum(data: Seq<u8>) -> u16 {
    (!fold16(inet_sum(data) as u32)) as u16
}

proof fn lemma_word_sum_bound(data: Seq<u8>, n: int)
    requires
        0 <= n,
        2 * n <= data.len(),
    ensures
        0 <= word_sum(data, n) <= n * 0xffff,
    decreases n,
{
    if n > 0 {
        lemma_word_sum_bound(data, n - 1);
    }
}

/// The standard one's-complement Internet checksum of `data`. The running
/// sum is kept in 32 bits, so `data` must be small enough for it to fit.
pub fn compute_inet_checksum(data: &[u8]) -> (r: u16)
    requires
        inet_sum(data@) <= u32::MAX,
    ensures
        r == inet_checksum(data@),
{
    let mut sum: u32 = 0;
    let n = data.len() / 2;
    let mut k: usize = 0;
    while k < n
        invariant
            n == data.len() / 2,
            k <= n,
            sum == word_sum(data@, k as int),
            inet_sum(data@) <= u32::MAX,
        decreases n - k,
    {
        proof {
            lemma_word_sum_bound(data@, n as int);
            lemma_word_sum_mono(data@, (k + 1) as int, n as int);
            assert(word_sum(data@, n as int) <= inet_sum(data@));
        }
        sum = sum + ((data[2 * k] as u32) * 256 + data[2 * k + 1] as u32);
        k = k + 1;
    }
    if data.len() % 2 == 1 {
        proof {
            lemma_word_sum_bound(data@, n as int);
        }
        sum = sum + (data[data.len() - 1] as u32) * 256;
    }
    assert(sum == inet_sum(data@));
    while sum > 0xFFFF
        invariant
            fold16(sum) == fold16(inet_sum(data@) as u32),
        decreases sum,
    {
        proof {
            assert(sum > 0xffff ==> (sum & 0xffff) + (sum >> 16u32) < sum) by (bit_vector);
        }
        sum = (sum & 0xFFFF) + (sum >> 16);
    }
    (!sum) as u16
}

proof fn lemma_word_sum_mono(data: Seq<u8>, m: int, n: int)
    requires
        0 <= m <= n,
        2 * n <= data.len(),
    ensures
        word_sum(data, m) <= word_sum(data, n),
    decreases n - m,
{
    if m < n {
        lemma_word_sum_mono(data, m, n - 1);
    }
}

/// The 12-byte IPv4 pseudo-header of TCP and UDP checksums: source and
/// destination address, a zero byte, the protocol and the length, all
/// big-endian.
pub open spec fn pseudo_header(src_ip: u32, dst_ip: u32, protocol: u8, length: u16) -> Seq<u8> {
    seq![
        (src_ip >> 24u32) as u8,
        (src_ip >> 16u32) as u8,
        (src_ip >> 8u32) as u8,
        src_ip as u8,
        (dst_ip >> 24u32) as u8,
        (dst_ip >> 16u32) as u8,
        (dst_ip >> 8u32) as u8,
        dst_ip as u8,
        0u8,
        protocol,
        (length >> 8u16) as u8,
        length as u8,
    ]
}

/// Builds the 12-byte IPv4 pseudo-header used by TCP/UDP checksums.
pub fn build_pseudo_header(src_ip: u32, dst_ip: u32, protocol: u8, length: u16) -> (r: Vec<u8>)
    ensures
        r@ == pseudo_header(src_ip, dst_ip, protocol, length),
{
    let mut header: Vec<u8> = Vec::new();
    header.push((src_ip >> 24) as u8);
    header.push((src_ip >> 16) as u8);
    header.push((src_ip >> 8) as u8);
    header.push(src_ip as u8);
    header.push((dst_ip >> 24) as u8);
    header.push((dst_ip >> 16) as u8);
    header.push((dst_ip >> 8) as u8);
    header.push(dst_ip as u8);
    header.push(0);
    header.push(protocol);
    header.push((length >> 8) as u8);
    header.push(length as u8);
    proof {
        assert(header@ =~= pseudo_header(src_ip, dst_ip, protocol, length));
    }
    header
}

/// The TCP checksum of `payload` between two addresses: the Internet
/// checksum over the pseudo-header (protocol 6, the payload length taken
/// modulo 2^16) followed by the payload.
pub fn tcp_checksum(source_ip: u32, destination_ip: u32, payload: &[u8]) -> (r: u16)
    requires
        inet_sum(pseudo_header(source_ip, destination_ip, 6, payload@.len() as u16) + payload@)
            <= u32::MAX,
    ensures
        r == inet_checksum(pseudo_header(source_ip, destination_ip, 6, payload@.len() as u16) + payload@),
{
    let mut checksum_data = build_pseudo_header(source_ip, destination_ip, 6, payload.len() as u16);
    let mut i: usize = 0;
    let ghost head = checksum_data@;
    while i < payload.len()
        invariant
            i <= payload@.len(),
            checksum_data@ == head + payload@.subrange(0, i as int),
        decreases payload@.len() - i,
    {
        checksum_data.push(payload[i]);
        i = i + 1;
        proof {
            assert(checksum_data@ =~= head + payload@.subrange(0, i as int));
        }
    }
    proof {
        assert(payload@.subrange(0, payload@.len() as int) =~= payload@);
    }
    compute_inet_checksum(checksum_data.as_slice())
}

/// Source, destination, protocol and total length of an IPv4 header, when
/// the packet holds one: at least 20 bytes, version 4, and a header length
/// of at least 20 bytes that the packet covers.
pub open spec fn ipv4_header(packet: Seq<u8>) -> Option<(u32, u32, u8, u16)> {
    if packet.len() < 20 || packet[0] >> 4u8 != 4 {
        None
    } else {
        let header_len = (packet[0] & 0x0f) as int * 4;
        if header_len < 20 || packet.len() < header_len {
            None
        } else {
            Some(
                (
                    (packet[12] as int * 0x1000000 + packet[13] as int * 0x10000 + packet[14] as int
                        * 0x100 + packet[15] as int) as u32,
                    (packet[16] as int * 0x1000000 + packet[17] as int * 0x10000 + packet[18] as int
                        * 0x100 + packet[19] as int) as u32,
                    packet[9],
                    (packet[2] as int * 0x100 + packet[3] as int) as u16,
                ),
            )
        }
    }
}

/// Parses the fixed fields needed by the network simulation from an IPv4
/// packet: source address, destination address, protocol and total length.
pub fn parse_ipv4_header(packet: &[u8]) -> (r: Option<(u32, u32, u8, u16)>)
    ensures
        r == ipv4_header(packet@),
{
    if packet.len() < 20 {
        return None;
    }
    let version = packet[0] >> 4;
    if version != 4 {
        return None;
    }
    let b0 = packet[0];
    proof {
        assert(b0 & 0x0f <= 0x0f) by (bit_vector);
    }
    let header_len = ((packet[0] & 0x0F) as usize) * 4;
    if header_len < 20 || packet.len() < header_len {
        return None;
    }
    let total_len: u16 = (packet[2] as u16) * 0x100 + packet[3] as u16;
    let protocol = packet[9];
    let src_ip: u32 = (packet[12] as u32) * 0x1000000 + (packet[13] as u32) * 0x10000 + (packet[14] as u32)
        * 0x100 + packet[15] as u32;
    let dst_ip: u32 = (packet[16] as u32) * 0x1000000 + (packet[17] as u32) * 0x10000 + (packet[18] as u32)
        * 0x100 + packet[19] as u32;
    Some((src_ip, dst_ip, protocol, total_len))
}

} // verus!
