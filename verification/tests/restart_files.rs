use mddem::restart::{latest_restart_step, restart_extension, restart_step_of};

#[test]
fn reads_the_step_of_a_file_of_this_rank_and_format() {
    assert_eq!(restart_step_of("restart_100_rank0.bin", 0, "bin"), Some(100));
    assert_eq!(restart_step_of("restart_100_rank0.json", 0, "json"), Some(100));
    assert_eq!(restart_step_of("restart_5_rank12.bin", 12, "bincode"), Some(5));
    assert_eq!(restart_step_of("restart_3_rank-1.bin", -1, "bin"), Some(3));
    assert_eq!(restart_step_of("restart_+7_rank0.bin", 0, "bin"), Some(7));
}

#[test]
fn other_names_have_no_step() {
    assert_eq!(restart_step_of("restart_100_rank0.bin", 0, "json"), None);
    assert_eq!(restart_step_of("restart_100_rank1.bin", 0, "bin"), None);
    assert_eq!(restart_step_of("restart_5_rank12.bin", 2, "bin"), None);
    assert_eq!(restart_step_of("restart__rank0.bin", 0, "bin"), None);
    assert_eq!(restart_step_of("restart_12a_rank0.bin", 0, "bin"), None);
    assert_eq!(restart_step_of("restart_-4_rank0.bin", 0, "bin"), None);
    assert_eq!(restart_step_of("checkpoint_100_rank0.bin", 0, "bin"), None);
    assert_eq!(restart_step_of("restart_999999999999999999999999_rank0.bin", 0, "bin"), None);
}

#[test]
fn extension_follows_the_format() {
    assert_eq!(restart_extension("json"), "json");
    assert_eq!(restart_extension("bincode"), "bin");
}

#[test]
fn latest_file_is_the_highest_step() {
    let names: Vec<String> = ["restart_5_rank0.bin", "restart_12_rank0.bin", "other.txt", "restart_7_rank0.bin", "restart_20_rank1.bin"]
        .iter()
        .map(|s| s.to_string())
        .collect();
    assert_eq!(latest_restart_step(&names, 0, "bin"), Some(12));
    assert_eq!(latest_restart_step(&names, 1, "bin"), Some(20));
    assert_eq!(latest_restart_step(&names, 2, "bin"), None);
    assert_eq!(latest_restart_step(&Vec::new(), 0, "bin"), None);
}
