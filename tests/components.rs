use polygraph::unison::{detune_fan, gather_mask, num_oscs_stereo};
use polygraph::audio_graph::{
    BufferIndex, CycleFound, EdgeInsertError, EdgeNotFound, NodeIndex, OutputBufferIndex, Port,
    ProcessTask,
};
use polygraph::buffer::{resolve_port, BufferList, Buffers, GetBufferError, PortMap, PortRef, ReadOnly};
use polygraph::cluster::{Cluster, ClusterStack};
use polygraph::delay::Delay;
use polygraph::graph::UNUSED;
use polygraph::util::{
    enclosing_div, splat, splat_slot, splat_stereo, swap_stereo, MaskAny, MaskSelect,
    MaskSplat,
};
use polygraph::voice::{push_within_capacity_stable, StackVoiceManager, VoiceEvent};
use polygraph::wavetable::{get_resample_data, mipmap_octaves, NUM_OCTAVES};

#[test]
fn node_index_and_port() {
    assert!(NodeIndex::Global.is_global());
    assert!(!NodeIndex::Processor(3).is_global());
    let p = Port::new(2, NodeIndex::Processor(5));
    assert_eq!(p.index, 2);
    assert_eq!(p.node_index, NodeIndex::Processor(5));
}

#[test]
fn edge_errors() {
    let e = EdgeNotFound { from_port: Some(true), to_port: Some(true) };
    assert!(e.is_not_error());
    let e = EdgeNotFound { from_port: Some(true), to_port: None };
    assert!(!e.is_not_error());
    let e = EdgeNotFound { from_port: Some(false), to_port: Some(true) };
    assert!(!e.is_not_error());
    assert_ne!(EdgeInsertError::CycleFound(CycleFound), EdgeInsertError::NotFound(e));
}

#[test]
fn root_rewrite_replaces_and_shifts() {
    let mut task = ProcessTask::Process {
        index: 4,
        inputs: vec![
            Some(BufferIndex::Output(OutputBufferIndex::Local(3))),
            None,
            Some(BufferIndex::SuperInput(1)),
        ],
        outputs: vec![
            Some(OutputBufferIndex::Local(1)),
            Some(OutputBufferIndex::Local(0)),
        ],
    };
    task.replace_and_shift_output_buffers(&vec![(1, 7)]);
    assert_eq!(
        task,
        ProcessTask::Process {
            index: 4,
            inputs: vec![
                Some(BufferIndex::Output(OutputBufferIndex::Local(2))),
                None,
                Some(BufferIndex::SuperInput(1)),
            ],
            outputs: vec![
                Some(OutputBufferIndex::Master(7)),
                Some(OutputBufferIndex::Local(0)),
            ],
        }
    );
    let mut sum = ProcessTask::Sum {
        left_input: BufferIndex::Output(OutputBufferIndex::Local(2)),
        right_input: BufferIndex::Output(OutputBufferIndex::Local(0)),
        output: OutputBufferIndex::Local(0),
    };
    sum.replace_and_shift_output_buffers(&vec![(0, 1), (1, 0)]);
    assert_eq!(
        sum,
        ProcessTask::Sum {
            left_input: BufferIndex::Output(OutputBufferIndex::Local(0)),
            right_input: BufferIndex::Output(OutputBufferIndex::Master(1)),
            output: OutputBufferIndex::Master(1),
        }
    );
}

#[test]
fn buffer_list_get_and_window() {
    let mut list: BufferList<f32, u32> = BufferList::new_with(3, 8, 0.5, 9);
    assert!(list.get(3).is_none());
    {
        let (buf, state) = list.get_mut(1).unwrap();
        buf[2] = 4.0;
        *state = 1;
    }
    let (buf, state) = list.get(1).unwrap();
    assert_eq!(buf[2], 4.0);
    assert_eq!(buf.len(), 8);
    assert_eq!(*state, 1);
    assert!(list.range_mut(6, 3).is_none());
    let mut window = list.range_mut(2, 3).unwrap();
    assert_eq!(window.len(), 3);
    let (w, _) = window.get(1).unwrap();
    assert_eq!(w, &[4.0, 0.5, 0.5]);
    {
        let (w, _) = window.get_mut(0).unwrap();
        w[0] = -1.0;
    }
    let mut again = window.reborrow();
    assert_eq!(again.get(0).unwrap().0, &[-1.0, 0.5, 0.5]);
    assert!(again.get_mut(5).is_none());
    let empty: BufferList<f32, u32> = BufferList::empty();
    assert!(empty.get(0).is_none());
    let zeroed: BufferList<f32, u32> = BufferList::new_zeroed(4, 2);
    assert_eq!(zeroed.get(1).unwrap().0, &[0.0; 4]);
    let plain: BufferList<f32, u32> = BufferList::new(2, 1);
    assert_eq!(plain.get(0).unwrap().0.len(), 2);
    let uninit: BufferList<f32, u32> = BufferList::new_uninit(5, 2);
    assert_eq!(uninit.get(1).unwrap().0.len(), 5);
}

#[test]
fn buffers_dispatch_ports() {
    let mut list: BufferList<f32, u32> = BufferList::new_with(2, 4, 0.0, 0);
    list.get_mut(1).unwrap().0[0] = 3.0;
    let inputs = [1, UNUSED];
    let outputs = [0];
    let window = list.range_mut(0, 4).unwrap();
    assert!(Buffers::new(window, &[2], &outputs).is_none());
    let window = list.range_mut(0, 4).unwrap();
    let mut buffers = Buffers::new(window, &inputs, &outputs).unwrap();
    assert_eq!(buffers.len(), 4);
    assert_eq!(buffers.input(0).unwrap().0[0], 3.0);
    assert_eq!(buffers.input_shared(1).err(), Some(GetBufferError::Empty));
    assert_eq!(buffers.input(2).err(), Some(GetBufferError::OOB));
    buffers.output(0).unwrap()[1] = 2.0;
    assert_eq!(buffers.output_shared(0).unwrap()[1], 2.0);
    assert_eq!(buffers.output(1).err(), Some(GetBufferError::OOB));
}

#[test]
fn read_only_values() {
    let r = ReadOnly::from_cell(5u32);
    assert_eq!(r.get(), 5);
    let v = ReadOnly::from_cell([1, 2, 3, 4]);
    assert_eq!(v.split_stereo().get(), [[1, 2], [3, 4]]);
}

#[test]
fn delay_line_delays() {
    let mut d: Delay<i32> = Delay::new(3);
    assert_eq!(d.len(), 3);
    assert_eq!(d.process_sample(1), 0);
    assert_eq!(d.process_sample(2), 0);
    assert_eq!(d.process_sample(3), 0);
    assert_eq!(d.process_sample(4), 1);
    assert_eq!(*d.get_current(), 2);
    let mut s = 5;
    d.process_sample_in_place(&mut s);
    assert_eq!(s, 2);
    let mut buf = [6, 7, 8, 9];
    d.process_buffer(&mut buf);
    assert_eq!(buf, [3, 4, 5, 6]);
    let mut buf2 = [0, 0];
    d.process(&mut buf2);
    assert_eq!(buf2, [7, 8]);
    d.clear();
    assert_eq!(d.process_sample(1), 0);
    let mut f = Delay::new_filled(2, 1.5f32);
    f.clear_to(0.25);
    assert_eq!(f.process_sample(1.0), 0.25);
}

#[test]
fn lane_helpers() {
    assert_eq!(enclosing_div(7, 4), 2);
    assert_eq!(enclosing_div(8, 4), 2);
    assert_eq!(enclosing_div(0, 4), 0);
    assert_eq!(polygraph::util::map([1u32, 2, 3, 4], |x| x * 10), [10, 20, 30, 40]);
    assert_eq!(splat(2.5f32), [2.5; 4]);
    assert_eq!(splat_stereo([1, 2]), [1, 2, 1, 2]);
    assert_eq!(swap_stereo([1, 2, 3, 4]), [2, 1, 4, 3]);
    assert_eq!(splat_slot(&[1, 2, 3, 4], 1), Some([3, 4, 3, 4]));
    assert_eq!(splat_slot(&[1, 2, 3, 4], 2), None);
    assert!([false, false, true, false].any());
    assert!(![false; 4].any());
    assert_eq!(<[bool; 4] as MaskSplat>::splat(true), [true; 4]);
    assert_eq!(
        [1, 2, 3, 4].select_or([true, false, false, true], [9, 9, 9, 9]),
        [1, 9, 9, 4]
    );
}

#[test]
fn wavetable_mipmap_selection() {
    assert_eq!(mipmap_octaves(0), NUM_OCTAVES);
    assert_eq!(mipmap_octaves(1), NUM_OCTAVES);
    assert_eq!(mipmap_octaves(u32::MAX), 0);
    assert_eq!(mipmap_octaves(1 << 25), 6);
    assert_eq!(mipmap_octaves(1 << 21), 10);
    let (fract, a, b) = get_resample_data(0xFFE0_0001, 1, 1 << 25);
    assert_eq!(fract, 0x0000_0800);
    assert_eq!(a, (6 + 12) * 2048 + 2047);
    assert_eq!(b, (6 + 12) * 2048);
}

#[test]
fn push_within_capacity() {
    let mut v = vec![1];
    assert!(push_within_capacity_stable(&mut v, 2, 5));
    assert!(!push_within_capacity_stable(&mut v, 2, 6));
    assert_eq!(v, vec![1, 5]);
}

#[test]
fn voice_manager_assigns_and_fills_gaps() {
    let mut vm: StackVoiceManager<f32> = StackVoiceManager::new();
    vm.set_max_polyphony(2);
    vm.note_on(60, 0.5);
    vm.note_on(62, 0.75);
    vm.note_on(64, 1.0);
    let mut events = vec![];
    vm.flush_events(&mut events);
    assert_eq!(events.len(), 2);
    assert_eq!(
        events[0],
        VoiceEvent::Activate {
            note: [60, 60, 62, 62],
            velocity: [0.5, 0.5, 0.75, 0.75],
            cluster_idx: 0,
            mask: [true; 4],
        }
    );
    assert_eq!(
        events[1],
        VoiceEvent::Activate {
            note: [64, 64, 0, 0],
            velocity: [1.0, 1.0, 0.0, 0.0],
            cluster_idx: 1,
            mask: [true, true, false, false],
        }
    );
    assert_eq!(vm.get_voice_mask(1), [true, true, false, false]);
    vm.note_off(62, 0.25);
    vm.note_free(60);
    let mut events = vec![];
    vm.flush_events(&mut events);
    assert_eq!(
        events,
        vec![
            VoiceEvent::Deactivate {
                velocity: [0.0, 0.0, 0.25, 0.25],
                cluster_idx: 0,
                mask: [false, false, true, true],
            },
            VoiceEvent::Move { from: (1, 0), to: (0, 0) },
        ]
    );
    assert_eq!(vm.get_voice_mask(0), [true; 4]);
    assert_eq!(vm.get_voice_mask(1), [false; 4]);
}

#[test]
fn move_state_swaps_lanes_between_clusters() {
    let fresh = ClusterStack::new(2, 0.5f32, 7u8);
    assert_eq!(fresh.get(1).unwrap().lanes, [0.5; 4]);
    assert_eq!(fresh.get(1).unwrap().voices, [7, 7]);
    assert!(fresh.get(2).is_none());
    let c0 = Cluster { lanes: [1.0f32, 2.0, 3.0, 4.0], voices: [1u8, 2] };
    let c1 = Cluster { lanes: [5.0f32, 6.0, 7.0, 8.0], voices: [3u8, 4] };
    let mut s = ClusterStack::from_clusters(vec![c0, c1]);
    s.move_state((0, 0), (1, 1));
    let a = s.get(0).unwrap();
    let b = s.get(1).unwrap();
    assert_eq!(a.lanes, [7.0, 8.0, 3.0, 4.0]);
    assert_eq!(a.voices, [4, 2]);
    assert_eq!(b.lanes, [5.0, 6.0, 1.0, 2.0]);
    assert_eq!(b.voices, [3, 1]);
    s.move_state((1, 1), (0, 0));
    assert_eq!(s.get(0).unwrap().lanes, [1.0, 2.0, 3.0, 4.0]);
    assert_eq!(s.get(1).unwrap().lanes, [5.0, 6.0, 7.0, 8.0]);
    assert_eq!(s.get(0).unwrap().voices, [1, 2]);
    s.move_state((0, 2), (1, 0));
    s.move_state((2, 0), (1, 0));
    assert_eq!(s.get(0).unwrap().lanes, [1.0, 2.0, 3.0, 4.0]);
    s.move_state((0, 1), (0, 1));
    assert_eq!(s.get(0).unwrap().lanes, [1.0, 2.0, 3.0, 4.0]);
}

#[test]
fn unison_layout() {
    assert_eq!(num_oscs_stereo(1), 1);
    assert_eq!(num_oscs_stereo(4), 1);
    assert_eq!(num_oscs_stereo(5), 2);
    assert_eq!(num_oscs_stereo(16), 4);
    assert_eq!(gather_mask(3, 0), [true; 4]);
    assert_eq!(gather_mask(1, 0), [true, true, false, false]);
    assert_eq!(gather_mask(5, 1), [true, true, false, false]);
    let fan = detune_fan(3, 0);
    // lanes 0..4 are pairs 0, 0, 1, 1; odd voice counts start the fan at 0
    assert_eq!(fan[0], (false, 0, 2));
    assert_eq!(fan[1], (true, 0, 2));
    assert_eq!(fan[2], (true, 2, 2));
    assert_eq!(fan[3], (false, 2, 2));
    let fan = detune_fan(1, 0);
    assert_eq!(fan[0].2, 1);
    let fan = detune_fan(4, 0);
    assert_eq!(fan[0].1, 1);
}

#[test]
fn cluster_set_replaces_one_cluster() {
    let mut s = ClusterStack::new(2, 0u8, 0u8);
    assert!(s.set(1, Cluster { lanes: [1, 2, 3, 4], voices: [5, 6] }));
    assert!(!s.set(2, Cluster { lanes: [9; 4], voices: [9; 2] }));
    assert_eq!(s.get(1).unwrap().lanes, [1, 2, 3, 4]);
    assert_eq!(s.get(0).unwrap().lanes, [0; 4]);
}

#[test]
fn nested_ports_resolve_through_parents() {
    let outer = PortMap {
        inputs: vec![Some(BufferIndex::Output(OutputBufferIndex::Local(4))), None],
        outputs: vec![Some(OutputBufferIndex::Local(2))],
    };
    let inner = PortMap {
        inputs: vec![
            Some(BufferIndex::SuperInput(0)),
            Some(BufferIndex::Output(OutputBufferIndex::Local(1))),
            Some(BufferIndex::SuperInput(1)),
            Some(BufferIndex::SuperInput(7)),
        ],
        outputs: vec![Some(OutputBufferIndex::Master(0)), None],
    };
    let chain = vec![outer, inner];
    assert_eq!(resolve_port(&chain, PortRef::Input(0)), Ok((0, 4)));
    assert_eq!(resolve_port(&chain, PortRef::Input(1)), Ok((1, 1)));
    assert_eq!(resolve_port(&chain, PortRef::Input(2)), Err(GetBufferError::Empty));
    assert_eq!(resolve_port(&chain, PortRef::Input(3)), Err(GetBufferError::OOB));
    assert_eq!(resolve_port(&chain, PortRef::Input(9)), Err(GetBufferError::OOB));
    assert_eq!(resolve_port(&chain, PortRef::Output(0)), Ok((0, 2)));
    assert_eq!(resolve_port(&chain, PortRef::Output(1)), Err(GetBufferError::Empty));
    let top_only = vec![PortMap { inputs: vec![Some(BufferIndex::SuperInput(0))], outputs: vec![] }];
    assert_eq!(resolve_port(&top_only, PortRef::Input(0)), Err(GetBufferError::OOB));
}
