use calx_telltale::census::elf::{functions, NotAnImage};
use calx_telltale::census::listing::{back_edges, NotAListing};

#[test]
fn something_that_is_not_an_image_is_declined_rather_than_guessed_at() {
    assert_eq!(
        functions(b"not an elf").unwrap_err(),
        NotAnImage::WrongMagic
    );
    assert_eq!(functions(&[]).unwrap_err(), NotAnImage::WrongMagic);
}

#[test]
fn a_thirty_two_bit_image_is_declined_by_name() {
    // Saying which support is missing beats a wrong answer or a panic.
    let mut header = vec![0x7f, b'E', b'L', b'F', 1, 1];
    header.resize(64, 0);
    assert_eq!(functions(&header).unwrap_err(), NotAnImage::Unsupported);
}

#[test]
fn a_truncated_image_is_declined_rather_than_read_past() {
    // The magic and class are right and the section table is not there.
    let mut header = vec![0x7f, b'E', b'L', b'F', 2, 1];
    header.resize(20, 0);
    assert_eq!(functions(&header).unwrap_err(), NotAnImage::Truncated);
}

    const ARC_LISTING: &str = "
firmware.elf:     file format elf32-littlearc

Disassembly of section .text:

00001000 <bus_wait_idle>:
    1000:\t7f 20 00 00 \tld r0,[r1]
    1004:\t20 80 00 00 \ttst r0,1
    1008:\tf9 07       \tbne 1000 <bus_wait_idle>
    100a:\te0 7e       \tj_s [blink]

00001010 <chan_teardown>:
    1010:\t20 80 00 00 \tsub r2,r2,1
    1014:\tf9 07       \tbne 1010 <chan_teardown>
    1016:\te0 7e       \tj_s [blink]
";

    #[test]
    fn a_listing_yields_the_loops_it_shows() {
        let (arch, edges) = back_edges(ARC_LISTING).unwrap();
        assert_eq!(arch, "ARC");
        assert_eq!(edges.len(), 2);
        assert_eq!(edges[0].symbol, "bus_wait_idle");
        assert_eq!((edges[0].at, edges[0].target), (0x1008, 0x1000));
        assert_eq!(edges[1].symbol, "chan_teardown");
    }

    #[test]
    fn a_forward_branch_is_not_a_loop() {
        let forward =
            ARC_LISTING.replace("bne 1000 <bus_wait_idle>", "bne 100a <bus_wait_idle+0xa>");
        let (_, edges) = back_edges(&forward).unwrap();
        assert_eq!(edges.len(), 1, "only the teardown loop is left");
    }

    #[test]
    fn a_branch_out_of_the_function_is_not_a_loop() {
        // Backward, but into an earlier function: a tail call rather than a
        // loop, and counting it would invent a loop that is not there.
        let out = ARC_LISTING.replace("bne 1010 <chan_teardown>", "bne 1000 <bus_wait_idle>");
        let (_, edges) = back_edges(&out).unwrap();
        assert_eq!(edges.len(), 1);
        assert_eq!(edges[0].symbol, "bus_wait_idle");
    }

    #[test]
    fn an_architecture_with_no_branch_set_is_declined_by_name() {
        let odd = ARC_LISTING.replace("elf32-littlearc", "elf32-somethingelse");
        assert_eq!(
            back_edges(&odd).unwrap_err(),
            NotAListing::UnknownArchitecture("elf32-somethingelse".to_string())
        );
    }

    #[test]
    fn something_that_is_not_a_listing_is_declined() {
        assert_eq!(back_edges("hello").unwrap_err(), NotAListing::NoFormatLine);
        let header_only = "a.elf:     file format elf32-littlearc\n";
        assert_eq!(back_edges(header_only).unwrap_err(), NotAListing::Empty);
    }

    #[test]
    fn a_non_branch_referencing_an_address_is_not_a_loop() {
        // A load whose operand happens to name an earlier address would be a
        // loop under a shape heuristic. The mnemonic set is what stops it.
        let load = ARC_LISTING.replace("bne 1000 <bus_wait_idle>", "ld r3,[1000]");
        let (_, edges) = back_edges(&load).unwrap();
        assert_eq!(edges.len(), 1, "the load is not counted");
    }

// An image built by hand, so that every field is known.

fn put16(b: &mut Vec<u8>, at: usize, v: u16) {
    b[at..at + 2].copy_from_slice(&v.to_le_bytes());
}

fn put32(b: &mut Vec<u8>, at: usize, v: u32) {
    b[at..at + 4].copy_from_slice(&v.to_le_bytes());
}

fn put64(b: &mut Vec<u8>, at: usize, v: u64) {
    b[at..at + 8].copy_from_slice(&v.to_le_bytes());
}

/// An image with a symbol table of three entries: a function, a data object
/// and a function with an empty name, then its string table.
fn tiny_image() -> Vec<u8> {
    let mut b = vec![0u8; 0x200];
    b[..4].copy_from_slice(&[0x7f, b'E', b'L', b'F']);
    b[4] = 2;
    b[5] = 1;
    // Three section headers at 0x40, 64 bytes apart: null, symtab, strtab.
    put64(&mut b, 0x28, 0x40);
    put16(&mut b, 0x3a, 64);
    put16(&mut b, 0x3c, 3);
    let symtab = 0x40 + 64;
    put32(&mut b, symtab + 4, 2);
    put64(&mut b, symtab + 0x18, 0x100);
    put64(&mut b, symtab + 0x20, 3 * 24);
    put32(&mut b, symtab + 0x28, 2);
    put64(&mut b, symtab + 0x38, 24);
    let strtab = 0x40 + 128;
    put32(&mut b, strtab + 4, 3);
    put64(&mut b, strtab + 0x18, 0x180);
    // The symbols.
    put32(&mut b, 0x100, 1);
    b[0x100 + 4] = 0x12;
    put64(&mut b, 0x100 + 0x10, 64);
    put32(&mut b, 0x118, 11);
    b[0x118 + 4] = 0x11;
    put64(&mut b, 0x118 + 0x10, 8);
    put32(&mut b, 0x130, 0);
    b[0x130 + 4] = 0x12;
    // The names.
    b[0x181..0x18a].copy_from_slice(b"poll_idle");
    b[0x18b..0x190].copy_from_slice(b"table");
    b
}

#[test]
fn a_hand_built_image_yields_its_named_functions_only() {
    let fns = functions(&tiny_image()).unwrap();
    assert_eq!(fns.len(), 1);
    assert_eq!(fns[0].name, "poll_idle");
    assert_eq!(fns[0].size, 64);
}

#[test]
fn a_symbol_table_running_past_the_end_is_truncated() {
    let mut b = tiny_image();
    put64(&mut b, 0x40 + 64 + 0x20, 100 * 24);
    assert_eq!(functions(&b).unwrap_err(), NotAnImage::Truncated);
}

#[test]
fn a_symbol_table_linked_to_something_that_is_not_strings_is_truncated() {
    let mut b = tiny_image();
    put32(&mut b, 0x40 + 128 + 4, 1);
    assert_eq!(functions(&b).unwrap_err(), NotAnImage::Truncated);
}

#[test]
fn a_section_table_at_the_end_of_the_address_space_is_declined_rather_than_wrapped() {
    let mut b = tiny_image();
    put64(&mut b, 0x28, u64::MAX - 8);
    assert_eq!(functions(&b).unwrap_err(), NotAnImage::Truncated);
}

#[test]
fn a_big_endian_image_is_declined_by_name() {
    let mut b = tiny_image();
    b[5] = 2;
    assert_eq!(functions(&b).unwrap_err(), NotAnImage::Unsupported);
}

#[test]
fn an_x86_listing_reads_its_loops_with_their_targets() {
    let listing = "
a.out:     file format elf64-x86-64

Disassembly of section .text:

0000000000401000 <spin>:
  401000:\t83 e8 01             \tsub    $0x1,%eax
  401003:\t75 fb                \tjne    401000 <spin>
  401005:\tc3                   \tret
";
    let (arch, edges) = back_edges(listing).unwrap();
    assert_eq!(arch, "x86-64");
    assert_eq!(edges.len(), 1);
    assert_eq!(edges[0].symbol, "spin");
    assert_eq!((edges[0].at, edges[0].target), (0x401003, 0x401000));
}

#[test]
fn a_second_format_phrase_ends_the_name_of_the_architecture() {
    let odd = "x: file format weird file format again\n";
    assert_eq!(
        back_edges(odd).unwrap_err(),
        NotAListing::UnknownArchitecture("weird".to_string())
    );
}
