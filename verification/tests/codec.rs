use gol::codec::from_cells_to_bytes;
use gol::codec::from_bytes_to_cells;

#[test]
fn binary_round_trip_preserves_cells() {
    let cells: Vec<(i32, i32)> = vec![(0, 0), (1, -1), (-2147483648, 2147483647), (256, -256)];
    let bytes = from_cells_to_bytes(cells.clone());
    assert_eq!(bytes.len(), 8 * cells.len());
    let back = from_bytes_to_cells(bytes);
    assert_eq!(back, cells);
}

#[test]
fn encoding_is_little_endian_x_then_y() {
    let bytes = from_cells_to_bytes(vec![(1, -1)]);
    assert_eq!(bytes, vec![1, 0, 0, 0, 255, 255, 255, 255]);
    let bytes = from_cells_to_bytes(vec![(0x01020304, 0x0a0b0c0d)]);
    assert_eq!(bytes, vec![0x04, 0x03, 0x02, 0x01, 0x0d, 0x0c, 0x0b, 0x0a]);
}

#[test]
fn partial_trailing_record_is_discarded() {
    let mut bytes = from_cells_to_bytes(vec![(7, 8), (9, 10)]);
    bytes.push(0x55);
    bytes.push(0x66);
    bytes.push(0x77);
    let back = from_bytes_to_cells(bytes);
    assert_eq!(back, vec![(7, 8), (9, 10)]);
}

#[test]
fn short_input_yields_no_cells() {
    assert_eq!(from_bytes_to_cells(Vec::new()), Vec::new());
    assert_eq!(from_bytes_to_cells(vec![1, 2, 3, 4, 5, 6, 7]), Vec::new());
}

#[test]
fn decoding_reads_negative_coordinates() {
    let bytes = vec![254, 255, 255, 255, 2, 0, 0, 0];
    assert_eq!(from_bytes_to_cells(bytes), vec![(-2, 2)]);
}
