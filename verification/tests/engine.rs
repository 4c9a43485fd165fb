use rsbf::error::BfError;
use rsbf::io::{AsciiReader, AsciiWriter, IntWriter, Reader, Writer};
use rsbf::runtime::{Runtime, TAPE_LEN};

const BUDGET: usize = 10_000_000;

fn run_ascii(src: &str, input: Vec<u8>) -> (Result<bool, BfError>, Runtime<AsciiReader, AsciiWriter>) {
    let mut rt = Runtime::new(src, AsciiReader::new(input), AsciiWriter::new()).unwrap();
    let r = rt.run(BUDGET);
    (r, rt)
}

#[test]
fn two_increments_output_code_point_two() {
    let (r, rt) = run_ascii("++.", vec![]);
    assert_eq!(r, Ok(true));
    assert_eq!(rt.writer.buf, vec![2u8]);
}

#[test]
fn three_increments_output_decimal_text_three() {
    let mut rt = Runtime::new("+++.", AsciiReader::new(vec![]), IntWriter::new()).unwrap();
    assert_eq!(rt.run(BUDGET), Ok(true));
    assert_eq!(rt.writer.buf, b"3".to_vec());
}

#[test]
fn loop_decrements_to_zero_and_terminates() {
    let (r, rt) = run_ascii("+++[-]", vec![]);
    assert_eq!(r, Ok(true));
    assert_eq!(rt.mem[rt.ptr], 0);
}

#[test]
fn left_as_first_instruction_is_pointer_out_of_bounds() {
    let (r, rt) = run_ascii("<", vec![]);
    assert_eq!(r, Err(BfError::PointerOutOfBounds));
    assert_eq!(rt.ptr, 0);
}

#[test]
fn left_from_cell_zero_fails_before_any_further_instruction() {
    let (r, rt) = run_ascii("<+.", vec![]);
    assert_eq!(r, Err(BfError::PointerOutOfBounds));
    // the failing move left everything untouched: no output was written,
    // no cell was incremented, and the pointer did not move
    assert_eq!(rt.writer.buf, Vec::<u8>::new());
    assert_eq!(rt.mem[0], 0);
    assert_eq!(rt.ptr, 0);
    assert_eq!(rt.pc, 0);
}

#[test]
fn moving_right_off_the_tape_fails() {
    let src = ">".repeat(TAPE_LEN);
    let (r, rt) = run_ascii(&src, vec![]);
    assert_eq!(r, Err(BfError::PointerOutOfBounds));
    assert_eq!(rt.ptr, TAPE_LEN - 1);
}

#[test]
fn moving_to_the_last_cell_succeeds() {
    let src = ">".repeat(TAPE_LEN - 1);
    let (r, rt) = run_ascii(&src, vec![]);
    assert_eq!(r, Ok(true));
    assert_eq!(rt.ptr, TAPE_LEN - 1);
}

#[test]
fn decrement_wraps_zero_to_255() {
    let (r, rt) = run_ascii("-", vec![]);
    assert_eq!(r, Ok(true));
    assert_eq!(rt.mem[0], 255);
}

#[test]
fn increment_wraps_255_to_zero() {
    let src = "+".repeat(256);
    let (r, rt) = run_ascii(&src, vec![]);
    assert_eq!(r, Ok(true));
    assert_eq!(rt.mem[0], 0);
}

#[test]
fn input_overwrites_cell_at_pointer() {
    let (r, rt) = run_ascii(",.", vec![65]);
    assert_eq!(r, Ok(true));
    assert_eq!(rt.writer.buf, vec![65u8]);
}

#[test]
fn exhausted_input_reads_zero() {
    let (r, rt) = run_ascii("+,.", vec![]);
    assert_eq!(r, Ok(true));
    // the read overwrote the incremented cell with 0
    assert_eq!(rt.writer.buf, vec![0u8]);
}

#[test]
fn second_read_past_end_of_input_is_zero() {
    let (r, rt) = run_ascii(",>,.<.", vec![7]);
    assert_eq!(r, Ok(true));
    assert_eq!(rt.writer.buf, vec![0u8, 7u8]);
}

#[test]
fn loop_on_zero_cell_skips_its_body() {
    let (r, rt) = run_ascii("[+>+<].", vec![]);
    assert_eq!(r, Ok(true));
    assert_eq!(rt.writer.buf, vec![0u8]);
    assert_eq!(rt.mem[1], 0);
}

#[test]
fn budget_runs_out_on_a_program_that_never_halts() {
    let mut rt = Runtime::new("+[]", AsciiReader::new(vec![]), AsciiWriter::new()).unwrap();
    assert_eq!(rt.run(1000), Ok(false));
    // a further call keeps going and still does not finish
    assert_eq!(rt.run(1000), Ok(false));
}

#[test]
fn load_error_propagates_from_new() {
    assert_eq!(
        Runtime::new("[", AsciiReader::new(vec![]), AsciiWriter::new()).err(),
        Some(BfError::UnmatchedOpen)
    );
    assert_eq!(
        Runtime::new("]", AsciiReader::new(vec![]), AsciiWriter::new()).err(),
        Some(BfError::UnmatchedClose)
    );
}

#[test]
fn hello_world_program_runs() {
    let src = "++++++++[>++++[>++>+++>+++>+<<<<-]>+>+>->>+[<]<-]>>.>---.+++++++..+++.>>.<-.<.+++.------.--------.>>+.>++.";
    let (r, rt) = run_ascii(src, vec![]);
    assert_eq!(r, Ok(true));
    assert_eq!(rt.writer.buf, b"Hello World!\n".to_vec());
}

#[test]
fn ascii_writer_encodes_high_cells_as_utf8() {
    let mut w = AsciiWriter::new();
    w.write(200).unwrap();
    let expected: String = (200u8 as char).to_string();
    assert_eq!(w.buf, expected.as_bytes().to_vec());
    assert_eq!(w.buf, vec![195u8, 136u8]);
}

#[test]
fn ascii_writer_passes_low_cells_through() {
    let mut w = AsciiWriter::new();
    w.write(0).unwrap();
    w.write(65).unwrap();
    w.write(127).unwrap();
    assert_eq!(w.buf, vec![0u8, 65u8, 127u8]);
}

#[test]
fn int_writer_renders_exact_decimal_digits() {
    let mut w = IntWriter::new();
    for v in [0u8, 7, 9, 10, 42, 99, 100, 200, 255] {
        w.write(v).unwrap();
    }
    assert_eq!(w.buf, b"079104299100200255".to_vec());
}

#[test]
fn reader_hands_bytes_back_in_order_then_zero() {
    let mut r = AsciiReader::new(vec![3, 1]);
    assert_eq!(r.read(), Ok(3));
    assert_eq!(r.read(), Ok(1));
    assert_eq!(r.read(), Ok(0));
    assert_eq!(r.read(), Ok(0));
}

#[test]
fn error_messages_name_each_kind() {
    assert_eq!(
        BfError::UnmatchedClose.message(),
        "encountered ']' without corresponding '['"
    );
    assert_eq!(BfError::UnmatchedOpen.message(), "parse finished with unbalanced '['");
    assert_eq!(BfError::PointerOutOfBounds.message(), "ptr moved out of range");
    assert_eq!(BfError::IOFailure.message(), "input or output port failed");
}
