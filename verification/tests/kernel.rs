use trona::kernel::abi::{
    pack_halves, read_u16, read_u32, read_u8, status, status_and_flag, status_and_value,
    value_on_success, value_or_zero, write_invoke_depth, written, Invocation, InvokeDepths,
    InvokeLabel, KernelAbi, Target,
};
use trona::kernel::bootinfo::{find_tlv, iter, read_typed, BootinfoFormat};
use trona::kernel::core_types::{
    CapRef, LeakedCapRef, SaltyOSCspaceLayoutV1, SaltyOSFramebufferInfoV1, SaltyOSImageInfoV1,
    SaltyOSStartupLayoutV1, TronaMsg, TronaResult, TronaRuntimeV1,
};
use trona::kernel::invoke::{
    cnode_copy, cnode_copy_ref, cnode_copy_ref_done, cnode_delete_depth, cnode_move_ref, cpu_times,
    direct_entry_rsp, ioport_in16_done, ioport_in32_done, ioport_out32_done, ioport_read_16_done,
    ioport_read_8_done, ioport_write_8_done, mo_get_size_done, mo_has_page_done,
    mo_mark_executable, space_info, tcb_get_cpu_times_ctx, tcb_get_space_info_ctx,
    tcb_get_trace_id_done, untyped_retype, untyped_retype_depth, untyped_retype_done,
    vspace_fork_range, vspace_get_mem_stats_raw_done, vspace_get_trace_id_done,
    vspace_map_device_range, vspace_map_mo, vspace_map_mo_demand, vspace_map_mo_done,
    vspace_map_mo_with_count_done, vspace_walk_result_entry_ctx, vspace_walk_result_header_ctx,
};
use trona::kernel::ipc::{
    clear_mp_metadata_ctx, clear_send_caps_ctx, get_receive_slot_path_ctx, ipc_context_init,
    mp_call_ctx, mp_call_done_ctx, mp_call_with_caps_ctx, mp_read_ctx, mp_read_done_ctx,
    mp_write_ctx, mp_write_done_ctx, mp_write_reply_ctx, mp_write_reply_read_ctx,
    mp_write_reply_to_ctx, mp_write_request_ctx, msginfo, msginfo_extracaps, msginfo_label,
    msginfo_length, set_receive_slot_path_ctx, set_send_cap_ctx, IpcBuffer, IpcContext,
    IPC_TIMEOUT_BLOCK_FOREVER,
};
use trona::kernel::ipc_buffer::{
    event_head, read_event_record, read_received_cap_count, ReservedLayout,
};
use trona::kernel::syscall::{
    clock_read_monotonic, clock_read_monotonic_done, clock_read_realtime, clock_read_realtime_done,
    futex_requeue, futex_requeue_done, futex_wait, futex_wait_done, futex_wake, futex_wake_done,
    rng_read_bytes, system_get_info, system_get_meminfo, system_get_meminfo_done, system_shutdown,
    thread_exit, yield_now,
};
use trona::loader::elf::header::Arch;

fn abi() -> KernelAbi {
    KernelAbi {
        mp_flag_reply: 1,
        err_invalid_operation: 2,
        map_mo_flag_demand: 0x8000_0000,
        clock_id_monotonic: 1,
        clock_id_realtime: 0,
    }
}

fn buffer() -> IpcBuffer {
    IpcBuffer {
        msg: [0; 34],
        caps: [0; 4],
        badge: 0,
        receive_cnode: 0,
        receive_index: 0,
        receive_depth: 0,
        mp_flags: 0,
        mp_txid: 0,
        reserved: [0; 468],
    }
}

fn context() -> IpcContext {
    let mut ctx = IpcContext::new();
    ipc_context_init(&mut ctx, Some(buffer()));
    ctx
}

fn message(label: u64, regs: &[u64]) -> TronaMsg {
    let mut msg = TronaMsg::zeroed();
    msg.label = label;
    msg.length = regs.len() as u64;
    msg.regs[..regs.len()].copy_from_slice(regs);
    msg
}

#[test]
fn cap_refs_keep_slot_and_depth() {
    let flat = CapRef::flat(9);
    assert_eq!((flat.addr(), flat.depth(), flat.is_null()), (9, 0, false));
    let deep = CapRef::at_depth(9, 3);
    assert_eq!((deep.addr(), deep.depth()), (9, 3));
    assert!(CapRef::null().is_null());
    let from = CapRef::from(7u64);
    assert_eq!((from.addr(), from.depth()), (7, 0));
    let leaked = LeakedCapRef::at_depth(4, 2);
    assert_eq!((leaked.addr(), leaked.depth()), (4, 2));
    assert_eq!(leaked.cap_ref().addr(), 4);
}

#[test]
fn results_are_decoded() {
    let ok = TronaResult { error: 0, value: 0x1_2345_6789 };
    let bad = TronaResult { error: 0xffff_fffe, value: 5 };
    assert_eq!(status(ok), 0);
    assert_eq!(status(bad), -2);
    assert_eq!(status_and_value(bad), (-2, 5));
    assert_eq!(status_and_flag(ok), (0, true));
    assert_eq!(value_on_success(ok), Some(0x1_2345_6789));
    assert_eq!(value_on_success(bad), None);
    assert_eq!(value_or_zero(bad), 0);
    assert_eq!(read_u8(ok), Ok(0x89));
    assert_eq!(read_u16(ok), Ok(0x6789));
    assert_eq!(read_u32(ok), Ok(0x2345_6789));
    assert_eq!(read_u8(bad), Err(-2));
    assert_eq!(written(ok), Ok(()));
    assert_eq!(written(bad), Err(-2));
}

#[test]
fn operations_come_to_their_results() {
    let ok = TronaResult { error: 0, value: 0x1_2345_6789 };
    let bad = TronaResult { error: 0xffff_fffe, value: 5 };
    assert_eq!((untyped_retype_done(ok), untyped_retype_done(bad)), (0, -2));
    assert_eq!((vspace_map_mo_done(ok), cnode_copy_ref_done(bad)), (0, -2));
    assert_eq!(vspace_map_mo_with_count_done(bad), (-2, 5));
    assert_eq!(mo_get_size_done(ok), (0, 0x1_2345_6789));
    assert_eq!((mo_has_page_done(ok), mo_has_page_done(bad)), ((0, true), (-2, true)));
    assert_eq!(tcb_get_trace_id_done(ok), Some(0x1_2345_6789));
    assert_eq!(vspace_get_trace_id_done(bad), None);
    assert_eq!(vspace_get_mem_stats_raw_done(bad), 0xffff_fffe);
    assert_eq!((ioport_read_8_done(ok), ioport_in16_done(ok)), (Ok(0x89), Ok(0x6789)));
    assert_eq!((ioport_in32_done(ok), ioport_read_16_done(bad)), (Ok(0x2345_6789), Err(-2)));
    assert_eq!((ioport_write_8_done(ok), ioport_out32_done(bad)), (Ok(()), Err(-2)));
    assert_eq!((futex_wait_done(bad), futex_wake_done(bad)), (0xffff_fffe, 5));
    assert_eq!((futex_requeue_done(ok), system_get_meminfo_done(ok)), (0x1_2345_6789, 0));
    assert_eq!(clock_read_monotonic_done(ok), 0x1_2345_6789);
    assert_eq!(clock_read_realtime_done(bad), 0);
}

#[test]
fn halves_are_packed() {
    assert_eq!(pack_halves(0x1_0000_0003, 0x2_0000_0004), 0x0000_0003_0000_0004);
}

#[test]
fn invocations_have_their_arguments() {
    let call = untyped_retype(CapRef::flat(5), 1, 12, 77);
    assert_eq!(
        call,
        Invocation {
            depths: None,
            target: Target::Slot(5),
            label: InvokeLabel::UntypedRetype,
            a2: 1,
            a3: 12,
            a4: 77,
            a5: 0,
        }
    );
    let deep = untyped_retype_depth(CapRef::flat(5), 1, 12, 77, 2);
    assert_eq!(deep.depths, Some(InvokeDepths { first: 2, second: 0 }));
    let set = write_invoke_depth(InvokeDepths { first: 2, second: 3 });
    assert_eq!((set.target, set.a2, set.a3), (Target::SelfTcb, 2, 3));
}

#[test]
fn copies_and_moves_order_their_depths() {
    let src = CapRef::at_depth(1, 4);
    let dest = CapRef::at_depth(2, 6);
    let copy = cnode_copy_ref(CapRef::flat(10), src, CapRef::flat(11), dest, 7);
    assert_eq!(copy.depths, Some(InvokeDepths { first: 4, second: 6 }));
    let moved = cnode_move_ref(CapRef::flat(11), dest, CapRef::flat(10), src);
    assert_eq!(moved.depths, Some(InvokeDepths { first: 6, second: 4 }));
    let plain = cnode_copy(CapRef::flat(10), 1, CapRef::flat(11), 2, 7);
    assert_eq!(plain.depths, Some(InvokeDepths { first: 0, second: 0 }));
    let delete = cnode_delete_depth(CapRef::flat(10), 3, 5);
    assert_eq!(delete.depths, Some(InvokeDepths { first: 5, second: 0 }));
    let mark = mo_mark_executable(CapRef::flat(1), CapRef::at_depth(2, 9), CapRef::flat(3), 4);
    assert_eq!(mark.depths, Some(InvokeDepths { first: 9, second: 0 }));
    assert_eq!((mark.a2, mark.a3, mark.a4), (2, 3, 4));
}

#[test]
fn ranges_are_packed_into_words() {
    let call = vspace_map_device_range(CapRef::flat(1), CapRef::flat(2), 3, 4, 5, 6);
    assert_eq!((call.a2, call.a3, call.a4, call.a5), (2, 3, 4, 0x5_0000_0006));
    let fork = vspace_fork_range(
        CapRef::flat(1),
        CapRef::flat(2),
        CapRef::flat(3),
        CapRef::flat(4),
        CapRef::flat(5),
        0x1000,
        0x2000,
    );
    assert_eq!(fork.a2, 0x3_0000_0002);
    assert_eq!(fork.a3, 0x4_0000_0005);
    assert_eq!((fork.a4, fork.a5), (0x1000, 0x2000));
}

#[test]
fn demand_mappings_are_marked() {
    let plain = vspace_map_mo(CapRef::flat(1), 2, 3, 4, 5);
    let demand = vspace_map_mo_demand(CapRef::flat(1), 2, 3, 4, 5, &abi());
    assert_eq!(plain.label, demand.label);
    assert_eq!(plain.a5, 5);
    assert_eq!(demand.a5, 0x8000_0005);
}

#[test]
fn direct_entry_leaves_room_for_a_return_address() {
    assert_eq!(direct_entry_rsp(0x1000, Arch::X86_64), 0xff8);
    assert_eq!(direct_entry_rsp(0x1000, Arch::Aarch64), 0x1000);
}

#[test]
fn thread_queries_read_the_message_words() {
    assert_eq!(tcb_get_space_info_ctx(CapRef::flat(4)).label, InvokeLabel::TcbGetSpaceInfo);
    assert_eq!(tcb_get_cpu_times_ctx(CapRef::flat(4)).label, InvokeLabel::TcbGetCpuTimes);
    let mut msg = [0u64; 34];
    msg[0] = 0x1_0c;
    msg[1] = 99;
    let ok = TronaResult { error: 0, value: 0 };
    let bad = TronaResult { error: 1, value: 0 };
    assert_eq!(space_info(ok, Some(&msg)), Some(0x0c));
    assert_eq!(space_info(bad, Some(&msg)), None);
    assert_eq!(space_info(ok, None), None);
    assert_eq!(cpu_times(ok, Some(&msg)), Some((0x10c, 99)));
}

#[test]
fn walk_results_are_read_from_the_page() {
    let mut page = [0u64; 512];
    page[0] = 2;
    page[1] = 7;
    page[45] = 10;
    page[46] = 11;
    page[47] = 12;
    assert_eq!(vspace_walk_result_header_ctx(Some(&page)), Some((2, 7)));
    assert_eq!(vspace_walk_result_entry_ctx(Some(&page), 1), Some((10, 11, 12)));
    assert!(vspace_walk_result_entry_ctx(Some(&page), 155).is_some());
    assert_eq!(vspace_walk_result_entry_ctx(Some(&page), 156), None);
    assert_eq!(vspace_walk_result_entry_ctx(None, 0), None);
}

#[test]
fn message_info_round_trips() {
    assert_eq!(msginfo(5, 3, 2), 20739);
    let info = msginfo(0xab_cdef, 32, 4);
    assert_eq!(msginfo_label(info), 0xab_cdef);
    assert_eq!(msginfo_length(info), 32);
    assert_eq!(msginfo_extracaps(info), 4);
    let cut = msginfo(0x3_4000_00ab_cdef, 0x81, 0x23);
    assert_eq!((msginfo_label(cut), msginfo_length(cut)), (0xab_cdef, 1));
    assert_eq!(msginfo_extracaps(cut), 3);
}

#[test]
fn receive_paths_are_saved_and_restored() {
    let mut ctx = context();
    set_receive_slot_path_ctx(&mut ctx, 1, 2, 3, 4);
    let saved = get_receive_slot_path_ctx(&ctx);
    assert_eq!(saved, (1, 2, 3, 4));
    set_receive_slot_path_ctx(&mut ctx, 9, 9, 9, 9);
    set_receive_slot_path_ctx(&mut ctx, saved.0, saved.1, saved.2, saved.3);
    assert_eq!(get_receive_slot_path_ctx(&ctx), (1, 2, 3, 4));
    assert_eq!(get_receive_slot_path_ctx(&IpcContext::new()), (0, 0, 0, 0));
}

#[test]
fn staged_caps_are_counted_and_cleared() {
    let mut ctx = context();
    set_send_cap_ctx(&mut ctx, 2, 50);
    set_send_cap_ctx(&mut ctx, 4, 60);
    set_send_cap_ctx(&mut ctx, -1, 60);
    assert_eq!(ctx.send_cap_count, 3);
    assert_eq!(ctx.ipc_buffer.unwrap().caps, [0, 0, 50, 0]);
    let mut with_meta = ctx;
    if let Some(b) = &mut with_meta.ipc_buffer {
        b.mp_txid = 77;
    }
    clear_send_caps_ctx(&mut with_meta);
    assert_eq!(with_meta.send_cap_count, 0);
    assert_eq!(with_meta.ipc_buffer.unwrap().caps, [0; 4]);
    assert_eq!(with_meta.ipc_buffer.unwrap().mp_txid, 77);
    clear_mp_metadata_ctx(&mut with_meta);
    assert_eq!(with_meta.ipc_buffer.unwrap().mp_txid, 0);
}

#[test]
fn a_write_carries_three_registers_and_overflows_the_rest() {
    let mut ctx = context();
    let msg = message(7, &[1, 2, 3, 4, 5]);
    let req = mp_write_ctx(&mut ctx, 30, &msg);
    assert_eq!(req.call.label, InvokeLabel::MpWrite);
    assert_eq!(req.call.target, Target::Slot(30));
    assert_eq!(req.call.a2, msginfo(7, 5, 0));
    assert_eq!((req.call.a3, req.call.a4, req.call.a5), (1, 2, 3));
    let b = ctx.ipc_buffer.unwrap();
    assert_eq!(&b.msg[2..7], &[0, 0, 0, 4, 5]);
    assert_eq!(mp_write_done_ctx(&mut ctx, &req, TronaResult { error: 0, value: 0 }), 0);
}

#[test]
fn operations_put_the_reply_metadata_back() {
    let mut ctx = context();
    if let Some(b) = &mut ctx.ipc_buffer {
        b.mp_flags = 5;
        b.mp_txid = 1234;
    }
    set_send_cap_ctx(&mut ctx, 0, 40);
    let msg = message(1, &[9]);
    let req = mp_write_request_ctx(&mut ctx, 30, &msg, 66);
    assert_eq!(ctx.ipc_buffer.unwrap().mp_txid, 66);
    assert_eq!(msginfo_extracaps(req.call.a2), 1);
    let err = mp_write_done_ctx(&mut ctx, &req, TronaResult { error: 3, value: 0 });
    assert_eq!(err, 3);
    let b = ctx.ipc_buffer.unwrap();
    assert_eq!((b.mp_flags, b.mp_txid), (5, 1234));
    assert_eq!((ctx.send_cap_count, b.caps), (0, [0; 4]));
}

#[test]
fn a_read_clears_stale_registers() {
    let mut ctx = context();
    if let Some(b) = &mut ctx.ipc_buffer {
        b.msg[0] = 11;
        b.msg[1] = 2;
        b.msg[2] = 21;
        b.msg[3] = 22;
        b.msg[4] = 23;
        b.badge = 8;
    }
    assert_eq!(mp_read_ctx(30).label, InvokeLabel::MpRead);
    let mut msg = message(0, &[1, 2, 3, 4]);
    let mut badge = 0;
    let ok = TronaResult { error: 0, value: 0 };
    assert_eq!(mp_read_done_ctx(&ctx, ok, &mut msg, &mut badge), 0);
    assert_eq!((msg.label, msg.length, badge), (11, 2, 8));
    assert_eq!(&msg.regs[..4], &[21, 22, 0, 0]);
    let bad = TronaResult { error: 4, value: 0 };
    let mut kept = message(1, &[5]);
    assert_eq!(mp_read_done_ctx(&ctx, bad, &mut kept, &mut badge), 4);
    assert_eq!(kept.regs[0], 5);
}

#[test]
fn a_call_stages_the_request_and_takes_the_reply() {
    let mut ctx = context();
    let msg = message(7, &[1, 2, 3, 4]);
    let req = mp_call_ctx(&mut ctx, 30, &msg, IPC_TIMEOUT_BLOCK_FOREVER);
    assert_eq!(req.call.label, InvokeLabel::MpCall);
    assert_eq!(req.call.a3, u64::MAX);
    assert_eq!(&ctx.ipc_buffer.unwrap().msg[2..6], &[1, 2, 3, 4]);
    if let Some(b) = &mut ctx.ipc_buffer {
        b.msg[0] = 70;
        b.msg[1] = 1;
        b.msg[2] = 71;
    }
    let mut reply = TronaMsg::zeroed();
    let ok = TronaResult { error: 0, value: 0 };
    assert_eq!(mp_call_done_ctx(&mut ctx, &req, ok, &mut reply), 0);
    assert_eq!((reply.label, reply.regs[0], reply.regs[1]), (70, 71, 0));
}

#[test]
fn a_call_sends_at_most_four_caps() {
    let mut ctx = context();
    let msg = message(7, &[]);
    let req = mp_call_with_caps_ctx(&mut ctx, 30, &msg, &[1, 2, 3, 4, 5], 0);
    assert_eq!(req.caps, 4);
    assert_eq!(ctx.ipc_buffer.unwrap().caps, [1, 2, 3, 4]);
    assert_eq!(msginfo_extracaps(req.call.a2), 4);
}

#[test]
fn replies_go_to_the_last_record() {
    let mut ctx = context();
    if let Some(b) = &mut ctx.ipc_buffer {
        b.mp_txid = 900;
    }
    let reply = message(1, &[2]);
    let req = mp_write_reply_ctx(&mut ctx, &abi(), 30, &reply).ok().unwrap();
    let b = ctx.ipc_buffer.unwrap();
    assert_eq!((b.mp_flags, b.mp_txid), (1, 900));
    let next = mp_write_reply_read_ctx(&mut ctx, &req, 30, TronaResult { error: 0, value: 0 });
    assert_eq!(next.unwrap().label, InvokeLabel::MpRead);
    let req = mp_write_reply_to_ctx(&mut ctx, &abi(), 30, 5, &reply).ok().unwrap();
    let stop = mp_write_reply_read_ctx(&mut ctx, &req, 30, TronaResult { error: 6, value: 0 });
    assert_eq!(stop, Err(6));
}

#[test]
fn replies_need_a_buffer() {
    let mut ctx = IpcContext::new();
    let reply = message(1, &[2]);
    assert_eq!(mp_write_reply_ctx(&mut ctx, &abi(), 30, &reply).err(), Some(2));
    assert_eq!(mp_write_reply_to_ctx(&mut ctx, &abi(), 30, 5, &reply).err(), Some(2));
}

#[test]
fn event_records_are_read_from_the_reserved_area() {
    let mut b = buffer();
    b.reserved[10] = 0x2_0000_0001;
    b.reserved[11] = 33;
    b.reserved[12] = 44;
    b.reserved[20] = 3;
    let layout =
        ReservedLayout { event_record_base: 10, event_record_words: 3, received_cap_count: 20 };
    let record = read_event_record(&b, &layout);
    assert_eq!(record, vec![0x2_0000_0001, 33, 44]);
    assert_eq!(event_head(&record), (1, 2, 33));
    assert_eq!(read_received_cap_count(&b, &layout), 3);
}

fn format() -> BootinfoFormat {
    BootinfoFormat {
        magic: 0x1122_3344_5566_7788,
        tag_end: 0,
        header_size: 8,
        tag_at: 0,
        length_at: 4,
        wide_length: true,
    }
}

fn boot_page() -> Vec<u8> {
    let mut page = vec![0u8; 4096];
    page[..8].copy_from_slice(&0x1122_3344_5566_7788u64.to_le_bytes());
    page[8] = 5;
    page[12] = 3;
    page[16..19].copy_from_slice(b"abc");
    page[24] = 6;
    page[28] = 8;
    page[32..40].copy_from_slice(b"12345678");
    page
}

#[test]
fn boot_records_are_walked_in_order() {
    let page = boot_page();
    let mut it = iter(&page, format()).unwrap();
    let first = it.next().unwrap();
    assert_eq!((first.tag, first.payload_bytes()), (5, &b"abc"[..]));
    let second = it.next().unwrap();
    assert_eq!((second.tag, second.payload_bytes()), (6, &b"12345678"[..]));
    assert!(it.next().is_none());
}

#[test]
fn boot_records_are_found_by_tag() {
    let mut page = boot_page();
    assert_eq!(find_tlv(&page, format(), 6).unwrap().payload, b"12345678");
    assert!(find_tlv(&page, format(), 7).is_none());
    assert_eq!(read_typed(&page, format(), 6, 4), Some(&b"1234"[..]));
    assert_eq!(read_typed(&page, format(), 5, 4), None);
    page[0] = 0;
    assert!(iter(&page, format()).is_none());
    assert!(find_tlv(&page, format(), 6).is_none());
}

#[test]
fn system_calls_name_their_operations() {
    let wait = futex_wait(0x1000, 7);
    assert_eq!((wait.target, wait.a2, wait.a3, wait.a4), (Target::SelfVspace, 0x1000, 7, 0));
    assert_eq!(futex_wake(0x1000, 2).a3, 2);
    let requeue = futex_requeue(0x1000, 1, 0x2000, 9, 5);
    assert_eq!((requeue.a3, requeue.a4, requeue.a5), (0x2000, 0x1_0000_0009, 5));
    assert_eq!(thread_exit().label, InvokeLabel::TcbExitSelf);
    assert_eq!(yield_now().label, InvokeLabel::TcbYield);
    assert_eq!(rng_read_bytes(3, 0x10, 0x20).a3, 0x20);
    assert_eq!(system_get_meminfo(3, 0x10).label, InvokeLabel::SysinfoGetMeminfo);
    assert_eq!(system_get_info(3, 1, 2, 4).a4, 4);
    assert_eq!(system_shutdown(3).label, InvokeLabel::SystemShutdown);
    assert_eq!(clock_read_monotonic(3, &abi()).a2, 1);
    assert_eq!(clock_read_realtime(3, &abi()).a2, 0);
}

#[test]
fn startup_blocks_collect_images_and_slots() {
    let mut block = SaltyOSStartupLayoutV1::new(1, 2, 3, 4, 5, 6);
    assert!(block.is_valid());
    assert!(!SaltyOSStartupLayoutV1::zeroed().is_valid());
    block.set_slot_preinstalled(65);
    assert!(block.slot_preinstalled(65));
    assert!(!block.slot_preinstalled(64));
    let image = SaltyOSImageInfoV1::new(1, 0, 0x1000, 0x2000, 0x1100);
    for _ in 0..16 {
        assert!(block.push_mapped_image(image, b"libc.so"));
    }
    assert!(!block.push_mapped_image(image, b"one-too-many"));
    assert_eq!(block.mapped_image_count, 16);
    assert_eq!(block.mapped_images[15].name_bytes(), b"libc.so");
    block.set_main_image(image);
    assert_eq!(block.main_image.entry, 0x1100);
}

#[test]
fn layouts_count_their_slots() {
    let mut layout = SaltyOSCspaceLayoutV1::zeroed();
    layout.alloc_base = 10;
    layout.alloc_limit = 30;
    layout.recv_base = 12;
    layout.recv_limit = 14;
    assert_eq!(layout.alloc_envelope_count(), 20);
    assert_eq!(layout.recv_count(), 2);
    assert!(layout.has_recv_range());
    assert!(!layout.has_expand_range());
    layout.alloc_limit = 5;
    assert_eq!(layout.alloc_envelope_count(), 0);
}

#[test]
fn blocks_are_checked_by_magic() {
    let mut runtime = TronaRuntimeV1::zeroed();
    assert!(!runtime.is_valid());
    runtime.magic = TronaRuntimeV1::MAGIC;
    runtime.version = TronaRuntimeV1::VERSION;
    assert!(runtime.is_valid());
    assert!(!SaltyOSFramebufferInfoV1::zeroed().is_present());
}
