//! Port I/O intercepts: the data a guest `out` sends, what an `in` leaves in RAX,
//! and how string port I/O walks guest memory.
use vstd::prelude::*;

verus! {

/// A port I/O intercept as the hypervisor reports it.
#[derive(Debug, Clone, Copy)]
pub struct IoPortAccess {
    pub port: u16,
    /// 1 for a write to the port (`out`), 0 for a read (`in`).
    pub intercept_access_type: u8,
    /// Bytes per transfer.
    pub access_size: u8,
    pub string_op: bool,
    pub rep_prefix: bool,
    pub instruction_length: u8,
    pub rip: u64,
    pub rax: u64,
    pub rcx: u64,
    pub rsi: u64,
    pub rdi: u64,
}

/// The registers to write back once an intercepted port access has been carried out.
#[derive(Debug, Clone, Copy, PartialEq, Eq, Structural)]
pub struct PioCompletion {
    pub rip: u64,
    pub rax: u64,
    /// New RSI, for a string write to a port.
    pub rsi: Option<u64>,
    /// New RDI, for a string read from a port.
    pub rdi: Option<u64>,
}

/// The access writes to the port.
pub open spec fn is_port_write(info: IoPortAccess) -> bool {
    info.intercept_access_type == 1
}

/// The address of the instruction after the intercepted one.
pub open spec fn next_rip(info: IoPortAccess) -> int {
    info.rip + info.instruction_length
}

/// Weight of byte `i` in a little-endian 32-bit value.
pub open spec fn byte_weight(i: int) -> int {
    if i == 0 {
        1
    } else if i == 1 {
        0x100
    } else if i == 2 {
        0x1_0000
    } else {
        0x100_0000
    }
}

/// Byte `i` (0 to 3) of `x`, least significant first.
pub open spec fn le_byte(x: u32, i: int) -> u8 {
    ((x as int / byte_weight(i)) % 0x100) as u8
}

/// The bytes an `out` of `len` bytes sends: the low bytes of EAX, least significant first.
pub open spec fn pio_write_bytes(rax: u64, len: int) -> Seq<u8> {
    Seq::new(len as nat, |i: int| le_byte(rax as u32, i))
}

/// The bits of EAX that an access of `len` bytes (1 to 4) covers.
pub open spec fn access_mask(len: int) -> u32 {
    if len == 1 {
        0xff
    } else if len == 2 {
        0xffff
    } else if len == 3 {
        0xff_ffff
    } else {
        0xffff_ffff
    }
}

/// Byte `i` of what a port read returned, or 0 past its end or past `len`.
pub open spec fn read_byte(data: Seq<u8>, len: int, i: int) -> u32 {
    if i < len && i < data.len() {
        data[i] as u32
    } else {
        0
    }
}

/// The little-endian value of the bytes that a port read of `len` bytes returned.
pub open spec fn read_value(data: Seq<u8>, len: int) -> u32 {
    (read_byte(data, len, 0) + read_byte(data, len, 1) * 0x100 + read_byte(data, len, 2)
        * 0x1_0000 + read_byte(data, len, 3) * 0x100_0000) as u32
}

/// RAX after an `in` of `len` bytes returned `data`: the bytes read replace the low
/// bytes of EAX, the other bits of EAX stay, and the upper half of RAX is cleared.
pub open spec fn pio_read_rax(rax: u64, data: Seq<u8>, len: int) -> u64 {
    (((rax as u32) & !access_mask(len)) | (read_value(data, len) & access_mask(len))) as u64
}

/// An `in` that reads back exactly the bytes an `out` of the same width sent from
/// `rax` leaves EAX as it was and clears the upper half of RAX.
pub proof fn lemma_pio_write_then_read(rax: u64, len: int)
    requires
        1 <= len <= 4,
    ensures
        pio_read_rax(rax, pio_write_bytes(rax, len), len) == rax % 0x1_0000_0000,
{
    let x = rax as u32;
    let d = pio_write_bytes(rax, len);
    let b0 = ((x as int / 1) % 0x100) as u32;
    let b1 = ((x as int / 0x100) % 0x100) as u32;
    let b2 = ((x as int / 0x1_0000) % 0x100) as u32;
    let b3 = ((x as int / 0x100_0000) % 0x100) as u32;
    assert(rax % 0x1_0000_0000 == x) by (bit_vector)
        requires
            x == rax as u32,
    ;
    if len == 1 {
        assert(read_value(d, len) == b0);
        assert(((x & !0xffu32) | (b0 & 0xffu32)) == x) by (bit_vector)
            requires
                b0 == ((x as int / 1) % 0x100) as u32,
        ;
    } else if len == 2 {
        assert(read_value(d, len) == (b0 + b1 * 0x100) as u32);
        assert(((x & !0xffffu32) | (((b0 + b1 * 0x100) as u32) & 0xffffu32)) == x) by (bit_vector)
            requires
                b0 == ((x as int / 1) % 0x100) as u32,
                b1 == ((x as int / 0x100) % 0x100) as u32,
        ;
    } else if len == 3 {
        assert(read_value(d, len) == (b0 + b1 * 0x100 + b2 * 0x1_0000) as u32);
        assert(((x & !0xff_ffffu32) | (((b0 + b1 * 0x100 + b2 * 0x1_0000) as u32) & 0xff_ffffu32))
            == x) by (bit_vector)
            requires
                b0 == ((x as int / 1) % 0x100) as u32,
                b1 == ((x as int / 0x100) % 0x100) as u32,
                b2 == ((x as int / 0x1_0000) % 0x100) as u32,
        ;
    } else {
        assert(read_value(d, len) == (b0 + b1 * 0x100 + b2 * 0x1_0000 + b3 * 0x100_0000) as u32);
        assert(((x & !0xffff_ffffu32) | (((b0 + b1 * 0x100 + b2 * 0x1_0000 + b3 * 0x100_0000) as u32)
            & 0xffff_ffffu32)) == x) by (bit_vector)
            requires
                b0 == ((x as int / 1) % 0x100) as u32,
                b1 == ((x as int / 0x100) % 0x100) as u32,
                b2 == ((x as int / 0x1_0000) % 0x100) as u32,
                b3 == ((x as int / 0x100_0000) % 0x100) as u32,
        ;
    }
}

/// The little-endian number that the first `n` bytes of `bytes` spell; bytes past the
/// end count as zero.
pub open spec fn le_number(bytes: Seq<u8>, n: nat) -> int
    decreases n,
{
    if n == 0 || bytes.len() == 0 {
        0
    } else {
        bytes[0] + 0x100 * le_number(bytes.drop_first(), (n - 1) as nat)
    }
}

/// 256 to the power `n`: the number of values `n` bytes can hold.
pub open spec fn byte_span(n: nat) -> int
    decreases n,
{
    if n == 0 {
        1
    } else {
        0x100 * byte_span((n - 1) as nat)
    }
}

/// The bytes an `out` of `len` bytes sends spell, least significant first, the low
/// `len` bytes of EAX.
pub proof fn lemma_pio_write_bytes_value(rax: u64, len: nat)
    requires
        len <= 4,
    ensures
        pio_write_bytes(rax, len as int).len() == len,
        le_number(pio_write_bytes(rax, len as int), len) == (rax as int % 0x1_0000_0000) % byte_span(len),
{
    let x = rax as u32;
    assert(rax % 0x1_0000_0000 == x) by (bit_vector)
        requires
            x == rax as u32,
    ;
    let d = pio_write_bytes(rax, len as int);
    reveal_with_fuel(le_number, 5);
    reveal_with_fuel(byte_span, 5);
    let b0 = ((x as int / 1) % 0x100) as u32;
    let b1 = ((x as int / 0x100) % 0x100) as u32;
    let b2 = ((x as int / 0x1_0000) % 0x100) as u32;
    let b3 = ((x as int / 0x100_0000) % 0x100) as u32;
    assert(d.len() == len);
    if len >= 1 {
        assert(d[0] == b0);
    }
    if len >= 2 {
        assert(d.drop_first()[0] == b1);
    }
    if len >= 3 {
        assert(d.drop_first().drop_first()[0] == b2);
    }
    if len >= 4 {
        assert(d.drop_first().drop_first().drop_first()[0] == b3);
    }
    if len == 0 {
        assert(x as int % 1 == 0);
    } else if len == 1 {
        assert(le_number(d.drop_first(), 0) == 0);
        assert(b0 == x % 0x100u32) by (bit_vector)
            requires
                b0 == ((x as int / 1) % 0x100) as u32,
        ;
        assert(byte_span(1) == 0x100);
        assert(le_number(d, 1) == b0);
    } else if len == 2 {
        assert(le_number(d.drop_first().drop_first(), 0) == 0);
        assert((b0 + 0x100 * b1) as u32 == x % 0x1_0000u32) by (bit_vector)
            requires
                b0 == ((x as int / 1) % 0x100) as u32,
                b1 == ((x as int / 0x100) % 0x100) as u32,
        ;
        assert(byte_span(2) == 0x1_0000);
        assert(le_number(d, 2) == b0 + 0x100 * b1);
    } else if len == 3 {
        assert(le_number(d.drop_first().drop_first().drop_first(), 0) == 0);
        assert((b0 + 0x100 * (b1 + 0x100 * b2)) as u32 == x % 0x100_0000u32) by (bit_vector)
            requires
                b0 == ((x as int / 1) % 0x100) as u32,
                b1 == ((x as int / 0x100) % 0x100) as u32,
                b2 == ((x as int / 0x1_0000) % 0x100) as u32,
        ;
        assert(byte_span(3) == 0x100_0000);
        assert(le_number(d, 3) == b0 + 0x100 * (b1 + 0x100 * b2));
    } else {
        assert(le_number(d.drop_first().drop_first().drop_first().drop_first(), 0) == 0);
        assert((b0 + 0x100 * (b1 + 0x100 * (b2 + 0x100 * b3))) as u32 == x)
            by (bit_vector)
            requires
                b0 == ((x as int / 1) % 0x100) as u32,
                b1 == ((x as int / 0x100) % 0x100) as u32,
                b2 == ((x as int / 0x1_0000) % 0x100) as u32,
                b3 == ((x as int / 0x100_0000) % 0x100) as u32,
        ;
        assert(byte_span(4) == 0x1_0000_0000);
        assert(le_number(d, 4) == b0 + 0x100 * (b1 + 0x100 * (b2 + 0x100 * b3)));
        assert(byte_span(4) == 0x1_0000_0000);
        assert(le_number(d, 4) == b0 + 0x100 * (b1 + 0x100 * (b2 + 0x100 * b3)));
    }
}

/// RAX after an `in` of `len` bytes (1 to 4): below its upper half, which is clear;
/// its low `len` bytes are the bytes read (missing ones as zero), least significant
/// first; and the bits of EAX above them are those of EAX before.
pub proof fn lemma_pio_read_rax_value(rax: u64, data: Seq<u8>, len: nat)
    requires
        1 <= len <= 4,
    ensures
        pio_read_rax(rax, data, len as int) < 0x1_0000_0000,
        pio_read_rax(rax, data, len as int) as int % byte_span(len) == le_number(data, len),
        pio_read_rax(rax, data, len as int) as int / byte_span(len) == (rax as int % 0x1_0000_0000)
            / byte_span(len),
{
    reveal_with_fuel(le_number, 5);
    reveal_with_fuel(byte_span, 5);
    let x = rax as u32;
    assert(rax % 0x1_0000_0000 == x) by (bit_vector)
        requires
            x == rax as u32,
    ;
    let l = len as int;
    let c0 = read_byte(data, l, 0);
    let c1 = read_byte(data, l, 1);
    let c2 = read_byte(data, l, 2);
    let c3 = read_byte(data, l, 3);
    let val = read_value(data, l);
    let d1 = data.drop_first();
    let d2 = d1.drop_first();
    let d3 = d2.drop_first();
    let v = pio_read_rax(rax, data, l);
    assert(v == ((x & !access_mask(l)) | (val & access_mask(l))) as u64);
    if data.len() > 0 {
        assert(c0 == data[0]);
    }
    if data.len() > 1 && len > 1 {
        assert(c1 == d1[0]);
    }
    if data.len() > 2 && len > 2 {
        assert(c2 == d2[0]);
    }
    if data.len() > 3 && len > 3 {
        assert(c3 == d3[0]);
    }
    if len == 1 {
        assert(le_number(data, 1) == c0);
        assert(val == c0);
        assert(((x & !0xffu32) | (val & 0xffu32)) % 0x100u32 == val && ((x & !0xffu32) | (val
            & 0xffu32)) / 0x100u32 == x / 0x100u32) by (bit_vector)
            requires
                val < 0x100,
        ;
        assert(byte_span(1) == 0x100);
        assert(v == ((x & !0xffu32) | (val & 0xffu32)) as u64);
    } else if len == 2 {
        assert(le_number(data, 2) == c0 + 0x100 * c1);
        assert(val == c0 + 0x100 * c1);
        assert(((x & !0xffffu32) | (val & 0xffffu32)) % 0x1_0000u32 == val && ((x & !0xffffu32)
            | (val & 0xffffu32)) / 0x1_0000u32 == x / 0x1_0000u32) by (bit_vector)
            requires
                val < 0x1_0000,
        ;
        assert(byte_span(2) == 0x1_0000);
        assert(v == ((x & !0xffffu32) | (val & 0xffffu32)) as u64);
    } else if len == 3 {
        assert(le_number(data, 3) == c0 + 0x100 * (c1 + 0x100 * c2));
        assert(val == c0 + 0x100 * c1 + 0x1_0000 * c2);
        assert(((x & !0xff_ffffu32) | (val & 0xff_ffffu32)) % 0x100_0000u32 == val && ((x
            & !0xff_ffffu32) | (val & 0xff_ffffu32)) / 0x100_0000u32 == x / 0x100_0000u32)
            by (bit_vector)
            requires
                val < 0x100_0000,
        ;
        assert(byte_span(3) == 0x100_0000);
        assert(v == ((x & !0xff_ffffu32) | (val & 0xff_ffffu32)) as u64);
    } else {
        assert(le_number(data, 4) == c0 + 0x100 * (c1 + 0x100 * (c2 + 0x100 * c3)));
        assert(val == c0 + 0x100 * c1 + 0x1_0000 * c2 + 0x100_0000 * c3);
        assert(((x & !0xffff_ffffu32) | (val & 0xffff_ffffu32)) == val) by (bit_vector);
        assert(byte_span(4) == 0x1_0000_0000);
        assert(v == val as u64);
    }
}

/// The `len` bytes at `a` (at least one) lie in one 4 KiB page exactly when their first
/// and last byte lie in the same page.
pub proof fn lemma_within_one_page(a: u64, len: u64)
    requires
        1 <= len,
        a + len <= u64::MAX + 1,
    ensures
        within_one_page(a, len) <==> a as int / 0x1000 == (a + len - 1) / 0x1000,
{
    let p = a as int / 0x1000;
    let r = a as int % 0x1000;
    assert(a as int == p * 0x1000 + r);
    let e = a + len - 1;
    if r + len <= 0x1000 {
        assert(e == p * 0x1000 + (r + len - 1));
        vstd::arithmetic::div_mod::lemma_fundamental_div_mod_converse(e, 0x1000, p, r + len - 1);
    } else {
        let q = e / 0x1000;
        vstd::arithmetic::div_mod::lemma_fundamental_div_mod(e, 0x1000);
        if q == p {
            assert(e - p * 0x1000 < 0x1000);
        }
    }
}

/// The bytes that an `out` of `len` bytes sends, taken from `rax`.
pub fn pio_write_data(rax: u64, len: usize) -> (data: Vec<u8>)
    requires
        len <= 4,
    ensures
        data@ == pio_write_bytes(rax, len as int),
{
    let eax = rax as u32;
    let b0 = (eax & 0xff) as u8;
    let b1 = ((eax >> 8u32) & 0xff) as u8;
    let b2 = ((eax >> 16u32) & 0xff) as u8;
    let b3 = ((eax >> 24u32) & 0xff) as u8;
    proof {
        assert(b0 == (eax as int / 1) % 0x100) by (bit_vector)
            requires
                b0 == (eax & 0xff) as u8,
        ;
        assert(b1 == (eax as int / 0x100) % 0x100) by (bit_vector)
            requires
                b1 == ((eax >> 8u32) & 0xff) as u8,
        ;
        assert(b2 == (eax as int / 0x1_0000) % 0x100) by (bit_vector)
            requires
                b2 == ((eax >> 16u32) & 0xff) as u8,
        ;
        assert(b3 == (eax as int / 0x100_0000) % 0x100) by (bit_vector)
            requires
                b3 == ((eax >> 24u32) & 0xff) as u8,
        ;
    }
    let bytes: [u8; 4] = [b0, b1, b2, b3];
    let mut data: Vec<u8> = Vec::new();
    let mut i: usize = 0;
    while i < len
        invariant
            i <= len <= 4,
            bytes@ == seq![b0, b1, b2, b3],
            eax == rax as u32,
            b0 == le_byte(eax, 0),
            b1 == le_byte(eax, 1),
            b2 == le_byte(eax, 2),
            b3 == le_byte(eax, 3),
            data@ == pio_write_bytes(rax, i as int),
        decreases len - i,
    {
        data.push(bytes[i]);
        i = i + 1;
        proof {
            assert(data@ =~= pio_write_bytes(rax, i as int));
        }
    }
    data
}

/// RAX after an `in` of `len` bytes returned `data`.
pub fn pio_read_merge(rax: u64, data: &Vec<u8>, len: usize) -> (ret: u64)
    requires
        1 <= len <= 4,
    ensures
        ret == pio_read_rax(rax, data@, len as int),
{
    let mut bytes: [u32; 4] = [0, 0, 0, 0];
    let mut i: usize = 0;
    while i < len && i < data.len()
        invariant
            i <= len <= 4,
            i <= data@.len(),
            forall|j: int| 0 <= j < 4 ==> #[trigger] bytes@[j] == if j < i { read_byte(data@, len as int, j) } else { 0 },
        decreases len - i,
    {
        bytes[i] = data[i] as u32;
        i = i + 1;
    }
    assert(forall|j: int| 0 <= j < 4 ==> #[trigger] bytes@[j] == read_byte(data@, len as int, j));
    let (b0, b1, b2, b3) = (bytes[0], bytes[1], bytes[2], bytes[3]);
    let v: u32 = b0 | (b1 << 8u32) | (b2 << 16u32) | (b3 << 24u32);
    let shift: u32 = 32 - (len as u32) * 8;
    let mask: u32 = 0xffff_ffffu32 >> shift;
    let eax: u32 = (rax as u32 & !mask) | (v & mask);
    proof {
        assert(v == (b0 + b1 * 0x100 + b2 * 0x1_0000 + b3 * 0x100_0000) as u32) by (bit_vector)
            requires
                b0 < 0x100,
                b1 < 0x100,
                b2 < 0x100,
                b3 < 0x100,
                v == b0 | (b1 << 8u32) | (b2 << 16u32) | (b3 << 24u32),
        ;
        assert(mask == access_mask(len as int)) by {
            if len == 1 {
                assert(0xffff_ffffu32 >> 24u32 == 0xffu32) by (bit_vector);
            } else if len == 2 {
                assert(0xffff_ffffu32 >> 16u32 == 0xffffu32) by (bit_vector);
            } else if len == 3 {
                assert(0xffff_ffffu32 >> 8u32 == 0xff_ffffu32) by (bit_vector);
            } else {
                assert(0xffff_ffffu32 >> 0u32 == 0xffff_ffffu32) by (bit_vector);
            }
        }
    }
    eax as u64
}

/// The registers after a non-string port access that left RAX as `rax`.
pub open spec fn completion(info: IoPortAccess, rax: u64) -> PioCompletion {
    PioCompletion { rip: next_rip(info) as u64, rax, rsi: None, rdi: None }
}

/// A completed non-string access resumes the guest at the instruction after the
/// intercepted one, with RAX as given and RSI and RDI untouched.
pub proof fn lemma_port_completion_registers(info: IoPortAccess, rax: u64)
    requires
        info.rip + info.instruction_length <= u64::MAX,
    ensures
        completion(info, rax).rip as int == info.rip + info.instruction_length,
        completion(info, rax).rax == rax,
        completion(info, rax).rsi is None,
        completion(info, rax).rdi is None,
{
}

/// What a port access asks of the device model.
#[derive(Debug)]
pub enum PortRequest {
    /// Send `data` to `port`.
    Write { port: u16, data: Vec<u8> },
    /// Read `len` bytes from `port`.
    Read { port: u16, len: usize },
}

/// Carries out a non-string port access with one request to `port_io`: an `out`
/// sends the low bytes of EAX, an `in` reads the access width and takes the bytes into
/// EAX (for a write, what `port_io` returns on success is not used). On success the
/// result holds the registers to write back; a failure of `port_io` is passed on.
pub fn mshv_handle_pio_non_str<E, F>(info: &IoPortAccess, port_io: F) -> (ret: Result<
    PioCompletion,
    E,
>) where F: FnOnce(PortRequest) -> Result<Vec<u8>, E>
    requires
        info.access_size <= 4,
        !is_port_write(*info) ==> 1 <= info.access_size,
        next_rip(*info) <= u64::MAX,
        forall|q: PortRequest| port_io.requires((q,)),
    ensures
        ret matches Ok(c) ==> c.rip as int == info.rip + info.instruction_length && c.rsi is None
            && c.rdi is None,
        is_port_write(*info) && ret is Ok ==> ret->Ok_0.rax == info.rax,
        is_port_write(*info) ==> exists|q: PortRequest, r: Result<Vec<u8>, E>|
            #![trigger call_ensures(port_io, (q,), r)]
            {
                &&& call_ensures(port_io, (q,), r)
                &&& q matches PortRequest::Write { port, data }
                &&& port == info.port
                &&& data@ == pio_write_bytes(info.rax, info.access_size as int)
                &&& ret == match r {
                    Ok(_) => Ok(completion(*info, info.rax)),
                    Err(e) => Err(e),
                }
            },
        !is_port_write(*info) ==> exists|q: PortRequest, r: Result<Vec<u8>, E>|
            #![trigger call_ensures(port_io, (q,), r)]
            {
                &&& call_ensures(port_io, (q,), r)
                &&& q matches PortRequest::Read { port, len }
                &&& port == info.port
                &&& len == info.access_size as usize
                &&& ret == match r {
                    Ok(d) => Ok(
                        completion(*info, pio_read_rax(info.rax, d@, info.access_size as int)),
                    ),
                    Err(e) => Err(e),
                }
            },
{
    let len = info.access_size as usize;
    let is_write = info.intercept_access_type == 1;
    let port = info.port;
    let rax;
    if is_write {
        let data = pio_write_data(info.rax, len);
        let r = port_io(PortRequest::Write { port, data });
        match r {
            Ok(_) => {
                rax = info.rax;
            },
            Err(e) => {
                return Err(e);
            },
        }
    } else {
        let r = port_io(PortRequest::Read { port, len });
        match r {
            Ok(data) => {
                rax = pio_read_merge(info.rax, &data, len);
            },
            Err(e) => {
                return Err(e);
            },
        }
    }
    let rip = info.rip + info.instruction_length as u64;
    proof {
        lemma_port_completion_registers(*info, rax);
    }
    Ok(PioCompletion { rip, rax, rsi: None, rdi: None })
}

/// One element further along a string port access: up by `len` bytes, or down when
/// the direction flag is set, wrapping around the 64-bit address space.
pub open spec fn string_io_step(a: u64, len: u64, df: bool) -> u64 {
    if df {
        ((a - len) % 0x1_0000_0000_0000_0000) as u64
    } else {
        ((a + len) % 0x1_0000_0000_0000_0000) as u64
    }
}

/// The address of element `k` of a string port access that starts at `start`.
pub open spec fn string_io_address(start: u64, len: u64, df: bool, k: nat) -> u64
    decreases k,
{
    if k == 0 {
        start
    } else {
        string_io_step(string_io_address(start, len, df, (k - 1) as nat), len, df)
    }
}

/// Number of elements a string port access moves: RCX with a REP prefix, else one.
pub open spec fn string_io_count(info: IoPortAccess) -> nat {
    if info.rep_prefix {
        info.rcx as nat
    } else {
        1
    }
}

/// The `len` bytes at `a` lie inside one 4 KiB page.
pub open spec fn within_one_page(a: u64, len: u64) -> bool {
    a % 0x1000 + len <= 0x1000
}

/// The registers after the first `k` elements of a string port access: RIP past the
/// instruction, and RSI (for a write) or RDI (for a read) past element `k - 1`.
pub open spec fn string_completion(info: IoPortAccess, df: bool, k: nat) -> PioCompletion {
    let len = info.access_size as u64;
    PioCompletion {
        rip: next_rip(info) as u64,
        rax: info.rax,
        rsi: if is_port_write(info) {
            Some(string_io_address(info.rsi, len, df, k))
        } else {
            None
        },
        rdi: if is_port_write(info) {
            None
        } else {
            Some(string_io_address(info.rdi, len, df, k))
        },
    }
}

/// Element `k` of a string port access lies `k * len` bytes from the start, upwards or,
/// with the direction flag set, downwards, modulo the 64-bit address space.
pub proof fn lemma_string_io_address_closed_form(start: u64, len: u64, df: bool, k: nat)
    ensures
        string_io_address(start, len, df, k) as int == if df {
            (start - k * len) % 0x1_0000_0000_0000_0000
        } else {
            (start + k * len) % 0x1_0000_0000_0000_0000
        },
    decreases k,
{
    let m: int = 0x1_0000_0000_0000_0000;
    if k == 0 {
        assert(start as int % m == start as int) by {
            vstd::arithmetic::div_mod::lemma_small_mod(start as nat, m as nat);
        }
    } else {
        let k1 = (k - 1) as nat;
        lemma_string_io_address_closed_form(start, len, df, k1);
        let prev = string_io_address(start, len, df, k1);
        assert(k1 * len + len == k * len) by (nonlinear_arith)
            requires
                k1 + 1 == k,
        ;
        if df {
            vstd::arithmetic::div_mod::lemma_sub_mod_noop(start - k1 * len, len as int, m);
            vstd::arithmetic::div_mod::lemma_small_mod(len as nat, m as nat);
            assert((prev - len) % m == (start - k1 * len - len) % m);
        } else {
            vstd::arithmetic::div_mod::lemma_add_mod_noop(start + k1 * len, len as int, m);
            vstd::arithmetic::div_mod::lemma_small_mod(len as nat, m as nat);
            assert((prev + len) % m == (start + k1 * len + len) % m);
        }
    }
}

/// Stepping `k` elements up and then `k` elements down gets back to where one started.
pub proof fn lemma_string_io_up_then_down(start: u64, len: u64, k: nat)
    ensures
        string_io_address(string_io_address(start, len, false, k), len, true, k) == start,
{
    let m: int = 0x1_0000_0000_0000_0000;
    let up = string_io_address(start, len, false, k);
    lemma_string_io_address_closed_form(start, len, false, k);
    lemma_string_io_address_closed_form(up, len, true, k);
    vstd::arithmetic::div_mod::lemma_sub_mod_noop(start + k * len, k * len, m);
    vstd::arithmetic::div_mod::lemma_sub_mod_noop_right(up as int, k * len, m);
    vstd::arithmetic::div_mod::lemma_mod_twice(k * len, m);
    vstd::arithmetic::div_mod::lemma_small_mod(start as nat, m as nat);
    assert((up - k * len) % m == (start + k * len - k * len) % m);
}

/// After `k` elements of a string access the guest resumes at the instruction after
/// the intercepted one, RAX is kept, and the index register of the access (RSI for a
/// write to the port, RDI for a read) has moved `k` elements up, or down with the
/// direction flag, modulo 2^64; the other index register is untouched.
pub proof fn lemma_string_completion_registers(info: IoPortAccess, df: bool, k: nat)
    requires
        info.rip + info.instruction_length <= u64::MAX,
    ensures
        ({
            let c = string_completion(info, df, k);
            let len = info.access_size as int;
            let m: int = 0x1_0000_0000_0000_0000;
            &&& c.rip as int == info.rip + info.instruction_length
            &&& c.rax == info.rax
            &&& info.intercept_access_type == 1 ==> c.rdi is None && c.rsi is Some && c.rsi->0 as int
                == if df {
                (info.rsi - k * len) % m
            } else {
                (info.rsi + k * len) % m
            }
            &&& info.intercept_access_type != 1 ==> c.rsi is None && c.rdi is Some && c.rdi->0 as int
                == if df {
                (info.rdi - k * len) % m
            } else {
                (info.rdi + k * len) % m
            }
        }),
{
    lemma_string_io_address_closed_form(info.rsi, info.access_size as u64, df, k);
    lemma_string_io_address_closed_form(info.rdi, info.access_size as u64, df, k);
}

fn string_io_next(a: u64, len: u64, df: bool) -> (ret: u64)
    ensures
        ret == string_io_step(a, len, df),
{
    if df {
        a.wrapping_sub(len)
    } else {
        a.wrapping_add(len)
    }
}

/// What comes next in a string port access.
#[derive(Debug, Clone, Copy, PartialEq, Eq, Structural)]
pub enum NextElement {
    /// Move the element at this linear address, then call `element_done`.
    Transfer(u64),
    /// The element of a write to the port at this address would cross a page, which
    /// is not supported.
    CrossesPage(u64),
    /// Every element has been moved.
    Done,
}

/// A string port access (`ins`/`outs`, with or without REP) under way. It walks the
/// guest memory from a start address by the access size, up or (with the direction
/// flag) down; the caller moves each element between the port and guest memory.
pub struct StringPortIo {
    info: IoPortAccess,
    start: u64,
    df: bool,
    count: u64,
    done: u64,
    addr: u64,
    index: u64,
}

/// The index register the access steps: RSI for a write to the port, RDI for a read.
pub open spec fn index_register(info: IoPortAccess) -> u64 {
    if is_port_write(info) {
        info.rsi
    } else {
        info.rdi
    }
}

impl StringPortIo {
    #[verifier::type_invariant]
    spec fn inv(self) -> bool {
        &&& self.info.access_size <= 4
        &&& next_rip(self.info) <= u64::MAX
        &&& self.count == string_io_count(self.info)
        &&& self.done <= self.count
        &&& self.addr == string_io_address(
            self.start,
            self.info.access_size as u64,
            self.df,
            self.done as nat,
        )
        &&& self.index == string_io_address(
            index_register(self.info),
            self.info.access_size as u64,
            self.df,
            self.done as nat,
        )
    }

    /// The intercepted access.
    pub closed spec fn access(self) -> IoPortAccess {
        self.info
    }

    /// Linear address of the first element.
    pub closed spec fn start(self) -> u64 {
        self.start
    }

    /// The direction flag: the access walks down.
    pub closed spec fn df(self) -> bool {
        self.df
    }

    /// Number of elements moved so far.
    pub closed spec fn done(self) -> nat {
        self.done as nat
    }

    /// What comes next, given the state.
    pub open spec fn next_spec(self) -> NextElement {
        let len = self.access().access_size as u64;
        let a = string_io_address(self.start(), len, self.df(), self.done());
        if self.done() >= string_io_count(self.access()) {
            NextElement::Done
        } else if is_port_write(self.access()) && !within_one_page(a, len) {
            NextElement::CrossesPage(a)
        } else {
            NextElement::Transfer(a)
        }
    }

    /// Starts the string access `info` at linear address `start`, walking down when
    /// `df` is set.
    pub fn new(info: &IoPortAccess, start: u64, df: bool) -> (io: Self)
        requires
            info.access_size <= 4,
            next_rip(*info) <= u64::MAX,
        ensures
            io.access() == *info,
            io.start() == start,
            io.df() == df,
            io.done() == 0,
    {
        let count: u64 = if info.rep_prefix {
            info.rcx
        } else {
            1
        };
        let index = if info.intercept_access_type == 1 {
            info.rsi
        } else {
            info.rdi
        };
        StringPortIo { info: *info, start, df, count, done: 0, addr: start, index }
    }

    /// The next element to move, or why there is none.
    pub fn next_element(&self) -> (ret: NextElement)
        ensures
            ret == self.next_spec(),
    {
        proof {
            use_type_invariant(self);
        }
        if self.done >= self.count {
            return NextElement::Done;
        }
        let len = self.info.access_size as u64;
        if self.info.intercept_access_type == 1 && !(self.addr % 0x1000 + len <= 0x1000) {
            return NextElement::CrossesPage(self.addr);
        }
        NextElement::Transfer(self.addr)
    }

    /// Records that the element `next_element` handed out has been moved.
    pub fn element_done(&mut self)
        requires
            old(self).next_spec() is Transfer,
        ensures
            final(self).access() == old(self).access(),
            final(self).start() == old(self).start(),
            final(self).df() == old(self).df(),
            final(self).done() == old(self).done() + 1,
    {
        proof {
            use_type_invariant(&*self);
        }
        let len = self.info.access_size as u64;
        let addr = string_io_next(self.addr, len, self.df);
        let index = string_io_next(self.index, len, self.df);
        *self = StringPortIo {
            info: self.info,
            start: self.start,
            df: self.df,
            count: self.count,
            done: self.done + 1,
            addr,
            index,
        };
    }

    /// The registers to write back after the elements moved so far.
    pub fn completion(&self) -> (c: PioCompletion)
        ensures
            c == string_completion(self.access(), self.df(), self.done()),
            c.rip as int == self.access().rip + self.access().instruction_length,
            c.rax == self.access().rax,
    {
        proof {
            use_type_invariant(self);
            lemma_string_completion_registers(self.info, self.df, self.done as nat);
        }
        let rip = self.info.rip + self.info.instruction_length as u64;
        if self.info.intercept_access_type == 1 {
            PioCompletion { rip, rax: self.info.rax, rsi: Some(self.index), rdi: None }
        } else {
            PioCompletion { rip, rax: self.info.rax, rsi: None, rdi: Some(self.index) }
        }
    }
}

} // verus!
