use qemu_mshv::pio::{
    mshv_handle_pio_non_str, pio_read_merge, pio_write_data, IoPortAccess, NextElement,
    PioCompletion, PortRequest, StringPortIo,
};
use std::cell::RefCell;

fn access(write: bool, size: u8) -> IoPortAccess {
    IoPortAccess {
        port: 0x3f8,
        intercept_access_type: if write { 1 } else { 0 },
        access_size: size,
        string_op: false,
        rep_prefix: false,
        instruction_length: 1,
        rip: 0x1000,
        rax: 0xdead_beef_1234_5678,
        rcx: 0,
        rsi: 0x2000,
        rdi: 0x3000,
    }
}

#[test]
fn write_data_is_low_bytes_of_eax() {
    assert_eq!(pio_write_data(0xdead_beef_1234_5678, 1), vec![0x78]);
    assert_eq!(pio_write_data(0xdead_beef_1234_5678, 2), vec![0x78, 0x56]);
    assert_eq!(pio_write_data(0xdead_beef_1234_5678, 4), vec![0x78, 0x56, 0x34, 0x12]);
    assert_eq!(pio_write_data(0xdead_beef_1234_5678, 0), Vec::<u8>::new());
}

#[test]
fn read_merge_keeps_high_eax_bits_and_clears_upper_rax() {
    assert_eq!(pio_read_merge(0xdead_beef_1234_5678, &vec![0xab], 1), 0x1234_56ab);
    assert_eq!(pio_read_merge(0xdead_beef_1234_5678, &vec![0xab, 0xcd], 2), 0x1234_cdab);
    assert_eq!(pio_read_merge(0xdead_beef_1234_5678, &vec![1, 2, 3, 4], 4), 0x0403_0201);
    // Bytes beyond the access width are not taken.
    assert_eq!(pio_read_merge(0xffff_ffff_ffff_ffff, &vec![1, 2, 3, 4], 1), 0xffff_ff01);
    // A short answer counts as zeros.
    assert_eq!(pio_read_merge(0xffff_ffff, &vec![0x11], 2), 0xffff_0011);
}

#[test]
fn write_then_read_roundtrip() {
    for len in 1..=4usize {
        let rax = 0x8765_4321_a1b2_c3d4u64;
        let d = pio_write_data(rax, len);
        assert_eq!(pio_read_merge(rax, &d, len), rax & 0xffff_ffff);
    }
}

#[test]
fn non_string_out() {
    let info = access(true, 2);
    let requests = RefCell::new(Vec::new());
    let ret: Result<PioCompletion, i32> = mshv_handle_pio_non_str(&info, |q| {
        requests.borrow_mut().push(format!("{:?}", q));
        Ok(vec![])
    });
    assert_eq!(ret, Ok(PioCompletion { rip: 0x1001, rax: 0xdead_beef_1234_5678, rsi: None, rdi: None }));
    assert_eq!(
        *requests.borrow(),
        vec![format!("{:?}", PortRequest::Write { port: 0x3f8, data: vec![0x78, 0x56] })]
    );
}

#[test]
fn non_string_in() {
    let info = access(false, 1);
    let ret: Result<PioCompletion, i32> = mshv_handle_pio_non_str(&info, |q| match q {
        PortRequest::Read { port, len } => {
            assert_eq!((port, len), (0x3f8, 1));
            Ok(vec![0x5a])
        }
        PortRequest::Write { .. } => panic!("no write expected"),
    });
    assert_eq!(ret, Ok(PioCompletion { rip: 0x1001, rax: 0x1234_565a, rsi: None, rdi: None }));
}

#[test]
fn non_string_errors_pass_through() {
    let w: Result<PioCompletion, i32> = mshv_handle_pio_non_str(&access(true, 4), |_| Err(7));
    assert_eq!(w, Err(7));
    let r: Result<PioCompletion, i32> = mshv_handle_pio_non_str(&access(false, 4), |_| Err(8));
    assert_eq!(r, Err(8));
}

/// Runs a string access the way the accelerator does; `transfer` moves one element.
fn run_string(
    info: &IoPortAccess,
    start: u64,
    df: bool,
    mut transfer: impl FnMut(u64) -> Result<(), i32>,
) -> Result<PioCompletion, i32> {
    let mut io = StringPortIo::new(info, start, df);
    loop {
        match io.next_element() {
            NextElement::Done => break,
            NextElement::CrossesPage(a) => panic!("crosses a page at {:x}", a),
            NextElement::Transfer(a) => {
                transfer(a)?;
                io.element_done();
            }
        }
    }
    Ok(io.completion())
}

#[test]
fn string_in_with_rep_walks_up() {
    let mut info = access(false, 2);
    info.string_op = true;
    info.rep_prefix = true;
    info.rcx = 3;
    let mut seen = Vec::new();
    let ret = run_string(&info, 0x9000, false, |a| {
        seen.push(a);
        Ok(())
    });
    assert_eq!(seen, vec![0x9000, 0x9002, 0x9004]);
    assert_eq!(ret, Ok(PioCompletion { rip: 0x1001, rax: info.rax, rsi: None, rdi: Some(0x3006) }));
}

#[test]
fn string_in_with_direction_flag_walks_down_and_wraps() {
    let mut info = access(false, 4);
    info.string_op = true;
    info.rep_prefix = true;
    info.rcx = 2;
    info.rdi = 4;
    let mut seen = Vec::new();
    let ret = run_string(&info, 4, true, |a| {
        seen.push(a);
        Ok(())
    });
    assert_eq!(seen, vec![4, 0]);
    assert_eq!(ret.unwrap().rdi, Some(u64::MAX - 3));
}

#[test]
fn string_without_rep_moves_one_element() {
    let mut info = access(false, 1);
    info.string_op = true;
    info.rcx = 100;
    let mut count = 0;
    let ret = run_string(&info, 0x10, false, |_| {
        count += 1;
        Ok(())
    });
    assert_eq!(count, 1);
    assert_eq!(ret.unwrap().rdi, Some(0x3001));
}

#[test]
fn string_stops_at_first_error_with_index_after_done_elements() {
    let mut info = access(false, 1);
    info.string_op = true;
    info.rep_prefix = true;
    info.rcx = 5;
    let mut io = StringPortIo::new(&info, 0x100, false);
    assert_eq!(io.next_element(), NextElement::Transfer(0x100));
    io.element_done();
    assert_eq!(io.next_element(), NextElement::Transfer(0x101));
    io.element_done();
    assert_eq!(io.next_element(), NextElement::Transfer(0x102));
    // The third transfer fails: two elements are done.
    assert_eq!(io.completion().rdi, Some(0x3002));
}

#[test]
fn string_out_within_page() {
    let mut info = access(true, 4);
    info.string_op = true;
    info.rep_prefix = true;
    info.rcx = 2;
    let mut seen = Vec::new();
    let ret = run_string(&info, 0x1ff8, false, |a| {
        seen.push(a);
        Ok(())
    });
    assert_eq!(seen, vec![0x1ff8, 0x1ffc]);
    assert_eq!(ret, Ok(PioCompletion { rip: 0x1001, rax: info.rax, rsi: Some(0x2008), rdi: None }));
}

#[test]
fn string_out_crossing_page_is_refused() {
    let mut info = access(true, 4);
    info.string_op = true;
    info.rep_prefix = true;
    info.rcx = 3;
    let mut io = StringPortIo::new(&info, 0x1ffc, false);
    assert_eq!(io.next_element(), NextElement::Transfer(0x1ffc));
    io.element_done();
    assert_eq!(io.next_element(), NextElement::Transfer(0x2000));
    let mut io = StringPortIo::new(&info, 0x1ffe, false);
    assert_eq!(io.next_element(), NextElement::CrossesPage(0x1ffe));
    // A read from the port is not held to pages.
    info.intercept_access_type = 0;
    let mut io = StringPortIo::new(&info, 0x1ffe, false);
    assert_eq!(io.next_element(), NextElement::Transfer(0x1ffe));
    io.element_done();
}

#[test]
fn string_out_with_zero_count_only_advances_rip() {
    let mut info = access(true, 1);
    info.string_op = true;
    info.rep_prefix = true;
    info.rcx = 0;
    let ret = run_string(&info, 0x100, false, |_| panic!("no transfer expected"));
    assert_eq!(ret, Ok(PioCompletion { rip: 0x1001, rax: info.rax, rsi: Some(0x2000), rdi: None }));
}

#[test]
fn string_up_then_down_returns_index() {
    let mut info = access(false, 4);
    info.string_op = true;
    info.rep_prefix = true;
    info.rcx = 3;
    info.rdi = u64::MAX - 5;
    let after = run_string(&info, 0, false, |_| Ok(())).unwrap().rdi.unwrap();
    assert_eq!(after, 6);
    info.rdi = after;
    let down = run_string(&info, 0, true, |_| Ok(())).unwrap();
    assert_eq!(down.rdi, Some(u64::MAX - 5));
}
