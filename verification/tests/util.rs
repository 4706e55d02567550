use c_oncpu::util::proc_exe_path;

#[test]
fn link_to_the_executable_of_a_process() {
    assert_eq!(proc_exe_path(1), "/proc/1/exe");
    assert_eq!(proc_exe_path(0), "/proc/0/exe");
    assert_eq!(proc_exe_path(31415), "/proc/31415/exe");
    assert_eq!(proc_exe_path(u32::MAX), "/proc/4294967295/exe");
}
