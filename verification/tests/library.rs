use rustlab::heap::Heap;
use rustlab::progress::{generate_data, process_item, stuff};
use rustlab::reader::{collect_entries, first_entries, parse_u8, ArgError, Reader, ENTRY_PATTERN};
use rustlab::sync::channel::{Channel, Handoff, Receiver};
use rustlab::sync::mutex::{Condvar, Mutex, MutexGuard};
use rustlab::sync::rwlock::{ReadGuard, ReadStep, RwLock, WriteStep};
use rustlab::sync::spinlock::SpinLock;
use rustlab::text::{decimal_string, trim};
use rustlab::vigenere::{accept_key, setup, translatable, translate};
use rustlab::zipbomb::{decode_trimmed, unzip_round, zip_archive, HexError};

#[test]
fn vigenere_shifts_letters_and_keeps_the_rest() {
    let table = setup();
    assert_eq!(table.len(), 52);
    assert_eq!(table[&b'A'], 0);
    assert_eq!(table[&b'z'], 25);
    assert_eq!(translate("example", "Hello, World!", &table), "Lblxd, Hsvid!");
    assert_eq!(translate("Key", "attack at dawn", &table), "kxrkgi kx bkal");
    assert_eq!(translate("b", "Zz", &table), "Aa");
    assert_eq!(translate("", "1 + 2 = 3", &table), "1 + 2 = 3");
}

#[test]
fn translation_needs_a_letter_key_for_each_letter() {
    let table = setup();
    assert!(translatable("example", "Hello, World!", &table));
    assert!(translatable("", "1 + 2 = 3", &table));
    assert!(!translatable("", "abc", &table));
    assert!(translatable("a\u{e9}", "a!", &table));
    assert!(!translatable("a\u{e9}", "ab", &table));
    assert!(!translatable("k3y", "abc", &table));
    assert_eq!(translate("a\u{e9}", "a!", &table), "a!");
}

#[test]
fn keys_are_letters_without_white_space() {
    assert_eq!(accept_key("  lem on\t\n"), Some("lemon".to_string()));
    assert_eq!(accept_key("Key"), Some("Key".to_string()));
    assert_eq!(accept_key(" \t "), None);
    assert_eq!(accept_key(""), None);
    assert_eq!(accept_key("ab1"), None);
    assert_eq!(accept_key("a-b"), None);
    assert_eq!(accept_key("\u{e9}t\u{e9}"), Some("\u{e9}t\u{e9}".to_string()));
}

#[test]
fn heap_gives_back_the_largest_first() {
    let mut h = Heap::new();
    for x in [5u64, 1, 9, 3, 9, 7, 2] {
        h.enqueue(x);
    }
    assert_eq!(h.len(), 7);
    let mut out = Vec::new();
    while h.len() > 0 {
        out.push(h.dequeue());
    }
    assert_eq!(out, vec![9, 9, 7, 5, 3, 2, 1]);
    assert_eq!(Heap::<u64>::findparent(6), 2);
    let c = Heap::<u64>::find_children(2);
    assert_eq!((c.left_child, c.right_child), (5, 6));
    let mut words = Heap::new();
    for w in ["fig", "pear", "apple", "kiwi"] {
        words.enqueue(w.to_string());
    }
    assert_eq!(words.dequeue(), "pear");
    assert_eq!(words.dequeue(), "kiwi");
    assert_eq!(words.len(), 2);
}

#[test]
fn counts_parse_like_u8_from_str() {
    assert_eq!(parse_u8("0"), Some(0));
    assert_eq!(parse_u8("255"), Some(255));
    assert_eq!(parse_u8("+007"), Some(7));
    assert_eq!(parse_u8("256"), None);
    assert_eq!(parse_u8("99999999999"), None);
    assert_eq!(parse_u8("+"), None);
    assert_eq!(parse_u8(""), None);
    assert_eq!(parse_u8("-1"), None);
    assert_eq!(parse_u8(" 1"), None);
    for s in ["0", "12", "255", "256", "+3", "-0", "x", "", "1a"] {
        assert_eq!(parse_u8(s), s.parse::<u8>().ok());
    }
}

#[test]
fn command_lines_are_checked() {
    let args = |v: &[&str]| v.iter().map(|s| s.to_string()).collect::<Vec<String>>();
    assert_eq!(Reader::build(&args(&["prog"])).err(), Some(ArgError::MissingArguments));
    assert_eq!(Reader::build(&args(&["prog", "x", "f"])).err(), Some(ArgError::BadNumber));
    assert_eq!(Reader::build(&args(&["prog", "3"])).err(), Some(ArgError::NoFiles));
    let r = Reader::build(&args(&["prog", "3", "a.txt", "b.txt"])).ok().unwrap();
    assert_eq!(r.number, 3);
    assert_eq!(r.files, args(&["a.txt", "b.txt"]));
    assert_eq!(ArgError::MissingArguments.message(), "Please provide a number and a file name");
    assert_eq!(ArgError::BadNumber.message(), "The first arguement has to be a number between 0-255");
    assert_eq!(ArgError::NoFiles.message(), "Please provide at least one file name");
}

#[test]
fn entries_are_taken_in_order() {
    let text = "25 | pikachu \n1   | bulbasaur\n4 | charmander \n7 | mr-mime \n";
    assert_eq!(
        collect_entries(text, 2),
        Some(vec!["25 | pikachu ".to_string(), "1   | bulbasaur\n".to_string()])
    );
    assert_eq!(collect_entries(text, 3).unwrap()[2], "4 | charmander ");
    assert_eq!(collect_entries(text, 4).unwrap()[3], "7 | mr-mime ");
    assert_eq!(collect_entries(text, 5), None);
    assert_eq!(collect_entries(text, 0), Some(vec![]));
    assert_eq!(ENTRY_PATTERN, r"\d+\s+\|\s(\w|-)+\s");
    assert_eq!(collect_entries("no entries here", 1), None);
    let all = vec!["a".to_string(), "b".to_string(), "c".to_string()];
    assert_eq!(first_entries(&all, 2), Some(vec!["a".to_string(), "b".to_string()]));
    assert_eq!(first_entries(&all, 3), Some(all.clone()));
    assert_eq!(first_entries(&all, 4), None);
    assert_eq!(first_entries(&vec![], 0), Some(vec![]));
}

#[test]
fn hexadecimal_decodes_pairs() {
    assert_eq!(decode_trimmed("  4142ff\n"), Ok(vec![0x41, 0x42, 0xff]));
    assert_eq!(decode_trimmed("123"), Err(HexError::OddLength));
    assert_eq!(decode_trimmed("66ag"), Err(HexError::InvalidHexCharacter { c: 'g', index: 3 }));
    let zip = zip_archive().unwrap();
    assert_eq!(zip.len(), 440);
    assert_eq!(&zip[0..4], &[0x50, 0x4b, 0x03, 0x04]);
}

#[test]
fn unzip_rounds_name_their_paths() {
    let u = unzip_round("/tmp/x", 42, "/");
    assert_eq!(u.new_folder, "/tmp/x/r42");
    assert_eq!(u.archive, "/tmp/x/r.zip");
    assert_eq!(u.inner_folder, "/tmp/x/r42/r");
    assert_eq!(u.inner_archive, "/tmp/x/r42/r/r.zip");
    assert_eq!(u.moved_archive, "/tmp/x/r42/r.zip");
    assert_eq!(decimal_string(0), "0");
    assert_eq!(decimal_string(65535), "65535");
    assert_eq!(trim(" \t a b \u{2003}"), "a b");
}

#[test]
fn work_items_sum_their_range() {
    assert_eq!(process_item(0), 0);
    assert_eq!(process_item(1), 499999500000);
    let d = generate_data();
    assert_eq!((d.data1, d.data2, d.data3.as_str()), (23, 76, "stuff"));
    assert_eq!(stuff(41), Some(42));
}

#[test]
fn spin_lock_and_channel_decisions() {
    assert!(!SpinLock::new().locked);
    assert!(SpinLock::lock(false));
    assert!(!SpinLock::lock(true));
    assert!(!SpinLock::unlock());
    let c = Channel::new();
    assert!(!c.ready && !c.in_use);
    assert_eq!(Channel::send(false), Handoff::Proceed);
    assert_eq!(Channel::send(true), Handoff::AlreadySent);
    assert_eq!(Channel::receive(true), Handoff::Proceed);
    assert_eq!(Channel::receive(false), Handoff::NoMessage);
    assert!(!c.is_ready());
    let full = Channel { ready: true, in_use: true };
    assert!(full.is_ready());
    assert!(Receiver { channel: &full }.is_ready());
    assert!(!Receiver { channel: &c }.is_ready());
}

#[test]
fn mutex_and_condvar_decisions() {
    assert_eq!(Mutex::new().state, 0);
    assert!(Mutex::lock(Ok(0)));
    assert!(!Mutex::lock(Err(1)));
    assert!(Mutex::keep_spinning(1, 99));
    assert!(!Mutex::keep_spinning(1, 100));
    assert!(!Mutex::keep_spinning(2, 0));
    assert!(Mutex::acquired_by_swap(0));
    assert!(!Mutex::acquired_by_swap(2));
    assert!(MutexGuard::release_wakes(2));
    assert!(!MutexGuard::release_wakes(1));
    let c = Condvar::new();
    assert_eq!((c.counter, c.num_waiters), (0, 0));
    let mut c = Condvar::new();
    assert!(!c.notify_one() && !c.notify_all());
    assert_eq!(c.counter, 0);
    let expected = c.wait();
    assert_eq!((expected, c.num_waiters), (0, 1));
    assert!(c.notify_one());
    assert_eq!(c.counter, 1);
    assert!(c.notify_all());
    assert_eq!(c.counter, 2);
    c.woken();
    assert_eq!(c.num_waiters, 0);
    let mut top = Condvar { counter: u32::MAX, num_waiters: 2 };
    assert!(top.notify_one());
    assert_eq!(top.counter, 0);
}

#[test]
fn reader_writer_lock_decisions() {
    let l = RwLock::new();
    assert_eq!((l.state, l.writer_wake_counter), (0, 0));
    assert_eq!(RwLock::read(0), ReadStep::TryAcquire { new: 2 });
    assert_eq!(RwLock::read(3), ReadStep::Wait);
    assert_eq!(RwLock::read(u32::MAX), ReadStep::Wait);
    assert_eq!(RwLock::read(u32::MAX - 1), ReadStep::TooManyReaders);
    assert_eq!(RwLock::write(0), WriteStep::TryAcquire);
    assert_eq!(RwLock::write(1), WriteStep::TryAcquire);
    assert_eq!(RwLock::write(4), WriteStep::BlockReaders { new: 5 });
    assert_eq!(RwLock::write(5), WriteStep::AwaitReaders);
    assert!(RwLock::writer_sleeps(2) && !RwLock::writer_sleeps(1));
    assert!(ReadGuard::release_wakes_writer(3));
    assert!(!ReadGuard::release_wakes_writer(5));
}
