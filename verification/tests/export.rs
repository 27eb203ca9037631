use tcpreno::{algorithm, to_csv};

#[test]
fn csv_exact_text_small_trace() {
    let text = to_csv(&[1, 2], &[8, 8], &[]);
    assert_eq!(
        text,
        "Cycle;Window size;Threshold;Packet losses\n0;1;8;\n1;2;8;\n"
    );
}

#[test]
fn csv_marks_loss_rows_exactly() {
    let text = to_csv(&[1, 2, 1], &[8, 8, 4], &[1]);
    assert_eq!(
        text,
        "Cycle;Window size;Threshold;Packet losses\n0;1;8;\n1;2;8;Loss\n2;1;4;\n"
    );
}

#[test]
fn csv_header_line_is_fixed() {
    let text = to_csv(&[], &[], &[5]);
    assert_eq!(text, "Cycle;Window size;Threshold;Packet losses\n");
}

#[test]
fn csv_row_indices_match_trace_positions() {
    let losses: Vec<u16> = vec![10, 14, 20];
    let (ws, ts) = algorithm(1, 8, 25, &losses, true);
    let text = to_csv(&ws, &ts, &losses);
    let lines: Vec<&str> = text.lines().collect();
    assert_eq!(lines.len(), ws.len() + 1);
    assert_eq!(lines[0], "Cycle;Window size;Threshold;Packet losses");
    for (i, line) in lines[1..].iter().enumerate() {
        let fields: Vec<&str> = line.split(';').collect();
        assert_eq!(fields.len(), 4);
        assert_eq!(fields[0].parse::<usize>().unwrap(), i);
        assert_eq!(fields[1].parse::<u16>().unwrap(), ws[i]);
        assert_eq!(fields[2].parse::<u16>().unwrap(), ts[i]);
        let lossy = losses.contains(&(i as u16));
        assert_eq!(fields[3] == "Loss", lossy);
        assert_eq!(fields[3] == "", !lossy);
    }
}

#[test]
fn csv_multidigit_numbers() {
    let text = to_csv(&[65535, 0], &[302, 10000], &[0]);
    assert_eq!(
        text,
        "Cycle;Window size;Threshold;Packet losses\n0;65535;302;Loss\n1;0;10000;\n"
    );
}

#[test]
fn csv_uses_shorter_series_for_row_count() {
    let text = to_csv(&[1, 2, 3], &[8], &[]);
    assert_eq!(text, "Cycle;Window size;Threshold;Packet losses\n0;1;8;\n");
}
