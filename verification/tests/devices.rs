use moeos::device::d1s::{self, config, mq};
use moeos::device::fdt::{fdt_copy_len, read_fdt_mem};
use moeos::io::console::{getchar, getchar_call, putchar, puts, Stdout};
use moeos::sbi::{set_timer, LegacyExt, SbiCall};
use moeos::timer::{get_time_us, timer_next_triger};
use moeos::trap::{trap_handler, TrapAction, TrapCause, TrapContext};

#[test]
fn legacy_ext_ids() {
    assert_eq!(usize::from(LegacyExt::SetTimer), 0);
    assert_eq!(usize::from(LegacyExt::ConsolePutchar), 1);
    assert_eq!(usize::from(LegacyExt::ConsoleGetchar), 2);
    assert_eq!(usize::from(LegacyExt::ClearIPI), 3);
    assert_eq!(usize::from(LegacyExt::SendIPI), 4);
    assert_eq!(usize::from(LegacyExt::RemoteFENCEI), 5);
    assert_eq!(usize::from(LegacyExt::RemoteSFENCEVMA), 6);
    assert_eq!(usize::from(LegacyExt::RemoteSFENCEVMAASID), 7);
    assert_eq!(usize::from(LegacyExt::Shutdown), 8);
}

#[test]
fn set_timer_call() {
    assert_eq!(
        set_timer(12345),
        SbiCall { eid: 0x54494D45, fid: 0, arg0: 12345, arg1: 0, arg2: 0 }
    );
}

#[test]
fn putchar_and_puts() {
    assert_eq!(putchar('A'), SbiCall { eid: 1, fid: 0, arg0: 65, arg1: 0, arg2: 0 });
    let calls = puts("hé\n");
    assert_eq!(calls.len(), 3);
    assert_eq!(calls[0].arg0, 'h' as usize);
    assert_eq!(calls[1].arg0, 0xe9);
    assert_eq!(calls[2].arg0, 10);
    assert!(calls.iter().all(|c| c.eid == 1));
    assert!(puts("").is_empty());
    let mut out = Stdout;
    assert_eq!(out.write_str("ok"), vec![putchar('o'), putchar('k')]);
}

#[test]
fn getchar_decodes_the_firmware_answer() {
    assert_eq!(getchar_call(), SbiCall { eid: 2, fid: 0, arg0: 0, arg1: 0, arg2: 0 });
    assert_eq!(getchar(usize::MAX), None);
    assert_eq!(getchar(0x61), Some('a'));
    assert_eq!(getchar(0x1_0041), Some('A'));
    assert_eq!(getchar(0xe9), Some('é'));
}

#[test]
fn timer_arithmetic() {
    assert_eq!(get_time_us(48_000_000, 24_000_000), 2_000_000);
    assert_eq!(get_time_us(47, 24_000_000), 1);
    assert_eq!(get_time_us(1_000_000, 1_000_000), 1_000_000);
    assert_eq!(timer_next_triger(1000, 24_000_000), set_timer(25_000));
}

fn context() -> TrapContext {
    let mut x = [0usize; 32];
    for (i, r) in x.iter_mut().enumerate() {
        *r = i * 3 + 1;
    }
    TrapContext { x, sstatus: 0x120, spec: 0x8040_0000 }
}

#[test]
fn trap_user_ecall_returns_zero_after_the_call() {
    let mut cx = context();
    assert_eq!(trap_handler(&mut cx, TrapCause::UserEnvCall), TrapAction::Resume);
    assert_eq!(cx.spec, 0x8040_0004);
    assert_eq!(cx.x[10], 0);
    assert_eq!(cx.x[11], 34);
    assert_eq!(cx.sstatus, 0x120);
}

#[test]
fn trap_other_causes() {
    let cases = [
        (TrapCause::StoreFault, TrapAction::PageFault),
        (TrapCause::StorePageFault, TrapAction::PageFault),
        (TrapCause::IllegalInstruction, TrapAction::IllegalInstruction),
        (TrapCause::SupervisorTimer, TrapAction::NextTimer),
        (TrapCause::Other, TrapAction::Unhandled),
    ];
    for (cause, action) in cases {
        let mut cx = context();
        assert_eq!(trap_handler(&mut cx, cause), action);
        assert_eq!(cx.spec, 0x8040_0000);
        assert_eq!(cx.x[10], 31);
    }
}

#[test]
fn board_config_and_led() {
    assert_eq!(config::init(), 24_000_000);
    assert_eq!(mq::blue_led_on(0xffff_ffff), 0xf1ff_ffff);
    assert_eq!(mq::blue_led_on(0), 0x0100_0000);
    assert_eq!(mq::blue_led_off(0x1234_5678), 0x1f34_5678);
}

#[test]
fn board_heaps() {
    let h = d1s::mem::init(0x4020_0000);
    assert_eq!(h.heap_start(), 0x4028_0000);
    assert_eq!(h.heap_size(), 0x4400_0000 - 0x4028_0000);
    assert_eq!(h.num_pages(), (0x4400_0000 - 0x4028_0000) / 4096);
    let h2 = d1s::memory_init(0x8040_0000);
    assert_eq!(h2.heap_start(), 0x8040_0000);
    assert_eq!(h2.heap_size(), 64 * 1024 * 1024);
    assert_eq!(h2.alloc_start(), 0x8040_4000);
}

fn image(total: u32, len: usize) -> Vec<u8> {
    let mut v: Vec<u8> = (0..len).map(|i| (i % 251) as u8 + 1).collect();
    v[0..4].copy_from_slice(&[0xd0, 0x0d, 0xfe, 0xed]);
    v[4..8].copy_from_slice(&total.to_be_bytes());
    v
}

#[test]
fn fdt_copy_len_reads_the_big_endian_size() {
    assert_eq!(fdt_copy_len(&image(0x0000_0123, 8)), 0x123);
    assert_eq!(fdt_copy_len(&image(0x0001_0000, 8)), 8192);
    assert_eq!(fdt_copy_len(&image(8192, 8)), 8192);
    assert_eq!(fdt_copy_len(&image(8191, 8)), 8191);
}

#[test]
fn read_fdt_mem_copies_the_header_size() {
    let img = image(100, 120);
    let buf = read_fdt_mem(&img);
    assert_eq!(buf.len(), 8192);
    assert_eq!(&buf[..100], &img[..100]);
    assert!(buf[100..].iter().all(|b| *b == 0));
    let big = image(20000, 9000);
    let buf = read_fdt_mem(&big);
    assert_eq!(&buf[..], &big[..8192]);
}
