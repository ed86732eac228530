use alaphios::io::console::Console;
use alaphios::io::crc::crc32;
use alaphios::io::device::{BlockDevice, CharDevice, DeviceTable};
use alaphios::io::disk::{DiskDevice, DiskError, RamDisk};
use alaphios::io::scheduler::{CscanScheduler, DiskRequest, FcfsScheduler, RequestScheduler};

#[test]
fn ramdisk_sector_round_trip() {
    let mut disk = RamDisk::new(16, 512);
    let mut buf = [0u8; 512];
    for (i, b) in buf.iter_mut().enumerate() {
        *b = (i % 256) as u8;
    }
    disk.write_sector(3, &buf).expect("write failed");
    let mut rbuf = [0u8; 512];
    disk.read_sector(3, &mut rbuf).expect("read failed");
    assert_eq!(buf, rbuf);
}

#[test]
fn ramdisk_fresh_sectors_read_as_zero() {
    let mut disk = RamDisk::new(4, 512);
    let mut rbuf = [7u8; 512];
    assert!(disk.read_sector(2, &mut rbuf).is_ok());
    assert!(rbuf.iter().all(|&b| b == 0));
    assert_eq!(disk.sector_size(), 512);
    assert_eq!(disk.sector_count(), 4);
}

#[test]
fn ramdisk_out_of_bounds() {
    let mut disk = RamDisk::new(4, 512);
    let buf = [1u8; 512];
    assert!(matches!(disk.write_sector(4, &buf), Err(DiskError::OutOfBounds)));
    let mut rbuf = [0u8; 512];
    assert!(matches!(disk.read_sector(4, &mut rbuf), Err(DiskError::OutOfBounds)));
}

#[test]
fn ramdisk_crc_mismatch_after_stream_write() {
    let mut disk = RamDisk::new(4, 512);
    // A cursor write changes the bytes but not the sector checksum.
    disk.seek(512);
    assert_eq!(disk.write(&[9u8; 10]).ok(), Some(10));
    let mut rbuf = [0u8; 512];
    assert!(matches!(disk.read_sector(1, &mut rbuf), Err(DiskError::CrcMismatch)));
}

#[test]
fn ramdisk_stream_read_stops_at_end() {
    let mut disk = RamDisk::new(2, 512);
    disk.seek(1000);
    let mut buf = [0u8; 100];
    assert_eq!(disk.read(&mut buf).ok(), Some(24));
    assert_eq!(disk.read(&mut buf).ok(), Some(0));
}

#[test]
fn crc32_check_value() {
    assert_eq!(crc32(b"123456789"), 0xCBF4_3926);
    assert_eq!(crc32(b""), 0);
    let c = crc32(b"AlaphiOS");
    assert_eq!(crc32(b"AlaphiOS"), c);
    assert_ne!(c, 0);
}

#[test]
fn cscan_serves_upward_then_wraps() {
    let mut cscan = CscanScheduler::new();
    cscan.submit(DiskRequest { lba: 5, count: 1, is_write: false });
    let first = cscan.drain();
    assert_eq!(first.len(), 1);
    for &lba in &[2u64, 8, 3, 10, 1] {
        cscan.submit(DiskRequest { lba, count: 1, is_write: false });
    }
    let order: Vec<u64> = cscan.drain().iter().map(|r| r.lba).collect();
    assert_eq!(order, vec![8, 10, 1, 2, 3]);
}

#[test]
fn cscan_keeps_submission_order_on_equal_sectors() {
    let mut cscan = CscanScheduler::new();
    cscan.submit(DiskRequest { lba: 4, count: 1, is_write: true });
    cscan.submit(DiskRequest { lba: 4, count: 2, is_write: false });
    cscan.submit(DiskRequest { lba: 1, count: 1, is_write: false });
    let out = cscan.drain();
    assert_eq!(out.len(), 3);
    assert_eq!((out[0].lba, out[0].count), (1, 1));
    assert_eq!((out[1].lba, out[1].count, out[1].is_write), (4, 1, true));
    assert_eq!((out[2].lba, out[2].count, out[2].is_write), (4, 2, false));
    assert!(cscan.drain().is_empty());
}

#[test]
fn fcfs_merges_adjacent_writes() {
    let mut fcfs = FcfsScheduler::new();
    fcfs.submit(DiskRequest { lba: 5, count: 1, is_write: true });
    fcfs.submit(DiskRequest { lba: 6, count: 1, is_write: true });
    fcfs.submit(DiskRequest { lba: 7, count: 1, is_write: true });
    fcfs.submit(DiskRequest { lba: 3, count: 1, is_write: false });
    fcfs.submit(DiskRequest { lba: 10, count: 1, is_write: true });
    let merged = fcfs.drain();
    assert_eq!(merged.len(), 3);
    assert_eq!((merged[0].lba, merged[0].count, merged[0].is_write), (5, 3, true));
    assert_eq!((merged[1].lba, merged[1].count, merged[1].is_write), (3, 1, false));
    assert_eq!((merged[2].lba, merged[2].count, merged[2].is_write), (10, 1, true));
}

#[test]
fn fcfs_does_not_merge_reads() {
    let mut fcfs = FcfsScheduler::new();
    fcfs.submit(DiskRequest { lba: 5, count: 1, is_write: false });
    fcfs.submit(DiskRequest { lba: 6, count: 1, is_write: false });
    assert_eq!(fcfs.drain().len(), 2);
}

#[test]
fn device_table_finds_console() {
    let mut table = DeviceTable::new();
    assert_eq!(table.register("console"), 0);
    assert_eq!(table.register("disk"), 1);
    assert_eq!(table.find("console"), Some(0));
    assert_eq!(table.find("disk"), Some(1));
    assert_eq!(table.find("tty"), None);
    assert!(table.is_blocking(0));
    assert!(table.is_blocking(7));
    table.get_mut(0).unwrap().blocking = false;
    assert!(!table.is_blocking(0));
    assert!(table.get_mut(5).is_none());
}

#[test]
fn console_line_discipline() {
    let mut console = Console::new();
    assert_eq!(console.get(), None);
    // 'h', 'i', key release, Enter
    for code in [0x23u8, 0x17, 0x97, 0x1C] {
        console.push_scancode(code);
    }
    assert_eq!(console.get(), Some(b'h'));
    assert_eq!(console.get(), Some(b'i'));
    assert_eq!(console.get(), Some(b'\n'));
    assert_eq!(console.get(), None);
    console.put(b'!');
    assert_eq!(console.take_output(), b"hi\n!".to_vec());
    assert!(console.take_output().is_empty());
}

#[test]
fn console_incomplete_line_is_not_readable() {
    let mut console = Console::new();
    console.push_scancode(0x1E); // 'a'
    assert_eq!(console.get(), None);
    console.push_scancode(0x1C);
    assert_eq!(console.get(), Some(b'a'));
}

#[test]
fn scancode_decoding() {
    assert_eq!(Console::decode_scancode(0x02), Some(b'1'));
    assert_eq!(Console::decode_scancode(0x39), Some(b' '));
    assert_eq!(Console::decode_scancode(0x1D), None);
    assert_eq!(Console::decode_scancode(0x82), None);
    assert_eq!(Console::decode_scancode(0x60), None);
}
