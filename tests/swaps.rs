use proc_mounts::{SwapInfo, SwapList};

const SAMPLE: &str = r#"Filename				Type		Size	Used	Priority
/dev/sda5                               partition	8388600	0	-2"#;

#[test]
fn swaps() {
    let lines: Vec<&str> = SAMPLE.lines().skip(1).collect();
    let swaps = SwapList::parse_from(&lines).unwrap();
    assert_eq!(
        swaps.entries(),
        &[SwapInfo {
            source: b"/dev/sda5".to_vec(),
            kind: b"partition".to_vec(),
            size: 8_388_600,
            used: 0,
            priority: -2
        }][..]
    );

    assert!(swaps.get_swapped(b"/dev/sda5"));
    assert!(!swaps.get_swapped(b"/dev/sda1"));
}
