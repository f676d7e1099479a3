use profiler::kallsyms::Kallsyms;
use profiler::symbolize::{resolve_kernel, Frame, FrameKind};

#[test]
fn frame_label_includes_offset_when_nonzero() {
    assert_eq!(Frame::Kernel("do_idle".into()).label(), "do_idle");
    assert_eq!(Frame::User("main+0x10".into()).label(), "main+0x10");
    assert_eq!(Frame::Unknown.label(), "[unknown]");
}

#[test]
fn frame_kind_matches_variant() {
    assert_eq!(Frame::Kernel("x".into()).kind(), FrameKind::Kernel);
    assert_eq!(Frame::User("x".into()).kind(), FrameKind::User);
    assert_eq!(Frame::Unknown.kind(), FrameKind::Unknown);
}

#[test]
fn kernel_frames_carry_hex_offsets() {
    let k = Kallsyms::parse("ffffffff81400000 t do_idle\nffffffff81500000 T schedule\n");
    assert_eq!(resolve_kernel(&k, 0xffffffff81400000), Frame::Kernel("do_idle".into()));
    assert_eq!(resolve_kernel(&k, 0xffffffff814abcde), Frame::Kernel("do_idle+0xabcde".into()));
    assert_eq!(resolve_kernel(&k, 0xffffffff81500010), Frame::Kernel("schedule+0x10".into()));
    assert_eq!(resolve_kernel(&k, 0x1000), Frame::Unknown);
}
