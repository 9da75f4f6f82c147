use siderust_pod::lambert::{LambertBranch, NRevBranch};
use siderust_pod::observations::{FrameTransformError, ObsType};
use siderust_pod::products::orbit::sp3_header_lines;
use siderust_pod::products::{OemProductWriter, ResidualCsvWriter, Sp3ProductWriter};
use siderust_pod::service::pipeline::{code_label, phase_label, residual_kind};
use siderust_pod::service::{ArcEpoch, GpsSatellite, PipelineError, SyntheticArc};

#[test]
fn streaming_writer_header() {
    let w = ResidualCsvWriter::new(Vec::new()).unwrap();
    let text = String::from_utf8(w.into_bytes()).unwrap();
    assert_eq!(text.trim(), "epoch_jd_tt,obs_type,satellite,residual_m,sigma_m,rejected");
}

#[test]
fn streaming_writer_record_count() {
    let mut w = ResidualCsvWriter::new(Vec::new()).unwrap();
    for i in 0..3 {
        let epoch = format!("{:.9}", 2_451_545.0 + i as f64);
        w.write_row(&epoch, "C1C", "G01", &format!("{:.6}", 0.0), &format!("{:.6}", 1.0), false)
            .unwrap();
    }
    let text = String::from_utf8(w.into_bytes()).unwrap();
    assert_eq!(text.lines().count(), 4);
}

#[test]
fn streaming_writer_rejected_field() {
    let mut w = ResidualCsvWriter::new(Vec::new()).unwrap();
    w.write_row("2451545.000000000", "P2", "G03", "10.000000", "1.000000", true).unwrap();
    w.flush().unwrap();
    let text = String::from_utf8(w.into_bytes()).unwrap();
    assert!(text.contains(",true"), "rejected=true must appear in output");
    assert_eq!(
        text.lines().nth(1).unwrap(),
        "2451545.000000000,P2,G03,10.000000,1.000000,true"
    );
}

#[test]
fn streaming_writer_keeps_existing_bytes() {
    let w = ResidualCsvWriter::new(b"# run 7\n".to_vec()).unwrap();
    let text = String::from_utf8(w.into_bytes()).unwrap();
    assert!(text.starts_with("# run 7\nepoch_jd_tt,"));
}

#[test]
fn sp3_header_counts_epochs_and_names_satellite() {
    let h = sp3_header_lines(5, "L01");
    assert_eq!(h.len(), 11);
    assert_eq!(h[0], "#dP2024  1  1  0  0  0.00000000          5 ORBIT IGS20 HLM  POD");
    assert_eq!(h[2], "+    1   L01                                                     ");
    assert_eq!(h[10], "/* siderust-pod orbit product");
    let h = sp3_header_lines(123456, "G1");
    assert_eq!(h[0], "#dP2024  1  1  0  0  0.00000000      123456 ORBIT IGS20 HLM  POD");
    assert_eq!(h[2], "+    1   G1                                                      ");
}

#[test]
fn product_writers_keep_their_identifiers() {
    let w = Sp3ProductWriter::new("G01");
    assert_eq!(w.satellite(), "G01");
    let o = OemProductWriter::new("2024-001A", "MYSAT");
    assert_eq!(o.id(), "2024-001A");
    assert_eq!(o.name(), "MYSAT");
}

#[test]
fn residual_labels_and_groups() {
    let sat = GpsSatellite { id: "G07".to_string(), slot: 6 };
    assert_eq!(code_label(&sat), "code-G07");
    assert_eq!(phase_label(&sat), "phase-G07");
    assert_eq!(residual_kind(&code_label(&sat)), "code");
    assert_eq!(residual_kind(&phase_label(&sat)), "phase");
    assert_eq!(residual_kind("clock"), "other");
    assert_eq!(residual_kind("code"), "other");
}

#[test]
fn arc_counts_its_satellites() {
    let sats = vec![
        GpsSatellite { id: "G01".to_string(), slot: 0 },
        GpsSatellite { id: "G02".to_string(), slot: 1 },
    ];
    let ep = ArcEpoch { state_index: 0, code: vec![(sats[0].clone(), 0)], carrier: vec![] };
    let arc = SyntheticArc { gps_sats: sats, epochs: vec![ep] };
    assert_eq!(arc.gss_count(), 2);
}

#[test]
fn error_messages() {
    assert_eq!(PipelineError::Io("disk full".to_string()).message(), "I/O error: disk full");
    assert_eq!(PipelineError::Estimation("diverged".to_string()).message(), "estimation: diverged");
    assert_eq!(PipelineError::Sp3("x".to_string()).message(), "sp3: x");
    assert_eq!(PipelineError::PodIo("y".to_string()).message(), "io: y");
    assert_eq!(
        FrameTransformError::Failed("no EOP".to_string()).message(),
        "frame transform failed: no EOP"
    );
}

#[test]
fn branch_selectors_are_distinct() {
    assert_ne!(LambertBranch::Prograde, LambertBranch::Retrograde);
    assert_ne!(NRevBranch::Left, NRevBranch::Right);
    assert_ne!(ObsType::GnssPseudorange, ObsType::SlrNormalPoint);
}
