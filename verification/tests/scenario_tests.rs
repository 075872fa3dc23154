use transient::assembler::preprocess_source_code;
use transient::image::codegen;
use transient::text::split_bytes_by;
use transient::vm::{TransientMode, TransientState};

fn assemble(src: &str) -> Vec<u8> {
    let lines = split_bytes_by(&src.as_bytes().to_vec(), b'\n');
    let (ops, vars) = preprocess_source_code(lines).unwrap();
    codegen(&ops, &vars)
}

fn run_image(image: &[u8]) -> TransientState {
    let mut s = TransientState::new();
    s.load_image(0, image);
    assert_eq!(s.run(0, 1_000_000), Ok(true));
    assert!(matches!(s.mode, TransientMode::HALTED));
    s
}

#[test]
fn minimal_halt() {
    let image = assemble("hlt");
    assert_eq!(image, vec![0xFF, 0, 0, 0, 0, 0, 0, 0]);
    let s = run_image(&image);
    assert!(s.output.is_empty());
}

#[test]
fn print_character() {
    let image = assemble("set8 $c 65\nputc8 $c\nhlt");
    // Two instructions of eight bytes, then the one-byte variable at 16.
    assert_eq!(image.len(), 17);
    assert_eq!(*image.last().unwrap(), 0x41);
    let s = run_image(&image);
    assert_eq!(s.output, b"A".to_vec());
}

#[test]
fn arithmetic_on_immediates() {
    let image = assemble("set8 $r 0\nadd8 !8_2 !8_3 $r\nputi8 $r\nhlt");
    let s = run_image(&image);
    assert_eq!(s.output, b"5".to_vec());
}

#[test]
fn conditional_jump_skips_the_print() {
    let src = "set8 $i 0\nset8 $f 0\nequ8 $i $i $f\njie8 #end $f\nputi8 $i\n#end\nhlt";
    let image = assemble(src);
    let s = run_image(&image);
    assert!(s.output.is_empty());
}

#[test]
fn loop_iterates_the_initial_count() {
    let src = "set8 $counter 3\nset8 $dot 42\n#start\njne8 #end $counter\nputc8 $dot\n\
               sub8 $counter !8_1 $counter\njmp8 #start\n#end\nhlt";
    let image = assemble(src);
    let s = run_image(&image);
    assert_eq!(s.output, b"***".to_vec());
}

#[test]
fn image_size_introspection() {
    let image = assemble("set8 $z 0\nimz8 $z\nputi8 $z\nhlt");
    assert_eq!(image.len(), 25);
    let s = run_image(&image);
    assert_eq!(s.output, b"25".to_vec());
}

#[test]
fn the_image_is_text_then_data() {
    let src = "set8 $a 1\nset16 $b 515\nputi8 $a\nhlt";
    let image = assemble(src);
    // 2 instructions, then a (1 byte) and b (2 bytes, big-endian 0x0203).
    assert_eq!(image.len(), 8 * 2 + 3);
    assert_eq!(&image[16..], &[1, 2, 3]);
}
