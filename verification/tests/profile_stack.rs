//! Stack resolution, depth limiting, interning, and profile assembly.

use samply_core::handles::CategoryHandle;
use samply_core::handles::ProcessHandle;
use samply_core::handles::ThreadHandle;
use samply_core::mapping::LibMappingAdd;
use samply_core::mapping::LibMappingInfo;
use samply_core::mapping::LibMappingOp;
use samply_core::mapping::LibMappingOpQueue;
use samply_core::mapping::LibMappingsHierarchy;
use samply_core::process_sample_data::CounterOnThread;
use samply_core::process_sample_data::MarkerOnThread;
use samply_core::process_sample_data::ProcessSampleData;
use samply_core::process_sample_data::SampleData;
use samply_core::process_sample_data::SampleOrMarker;
use samply_core::process_sample_data::UnresolvedSampleOrMarker;
use samply_core::process_sample_data::UnresolvedSamples;
use samply_core::process_sample_data::UnresolvedStacks;
use samply_core::profile::Profile;
use samply_core::stack::FrameLocation;
use samply_core::stack::ResolvedFrame;
use samply_core::stack::StackConverter;
use samply_core::stack::StackFrame;
use samply_core::stack::limit_stack_depth;
use samply_core::counter_file::Counter;
use samply_core::counter_file::CounterCategory;
use samply_core::counter_file::CounterSample;

fn resolved(addr: u64, cat: CategoryHandle) -> ResolvedFrame {
    ResolvedFrame {
        category: cat,
        location: FrameLocation::Unknown { address: addr },
    }
}

#[test]
fn deep_stack_is_truncated_to_max_frames_keeping_the_leaf() {
    // a stack over the limit yields exactly `max` frames, the root-ward
    // excess collapsed into one marker
    let cat = CategoryHandle(1);
    let trunc_cat = CategoryHandle(2);
    let frames: Vec<ResolvedFrame> = (0..10).map(|i| resolved(i as u64, cat)).collect();
    let limited = limit_stack_depth(frames.clone(), 4, trunc_cat);
    assert_eq!(limited.len(), 4);
    // leaf-ward frames unchanged
    assert_eq!(limited[0], frames[0]);
    assert_eq!(limited[1], frames[1]);
    assert_eq!(limited[2], frames[2]);
    // one truncation marker stands for the collapsed root-ward frames
    assert_eq!(limited[3].category, trunc_cat);
    assert!(matches!(limited[3].location, FrameLocation::Truncated));
    // a stack within the limit passes through unchanged
    let short = limit_stack_depth(frames.clone(), 10, trunc_cat);
    assert_eq!(short, frames);
}

#[test]
fn stack_interning_round_trips_and_deduplicates() {
    let mut stacks = UnresolvedStacks::new();
    let frames = vec![
        StackFrame::User(0x10),
        StackFrame::User(0x20),
        StackFrame::Kernel(0x30),
    ];
    let h1 = stacks.convert(&frames);
    let h2 = stacks.convert(&frames);
    assert_eq!(h1, h2);
    let mut buf: Vec<StackFrame> = Vec::new();
    stacks.convert_back(h1, &mut buf);
    assert_eq!(buf, frames);
    // a stack sharing a suffix shares nodes: only one new node appears
    let longer = vec![
        StackFrame::User(0x40),
        StackFrame::User(0x20),
        StackFrame::Kernel(0x30),
    ];
    let h3 = stacks.convert(&longer);
    let mut buf2: Vec<StackFrame> = Vec::new();
    stacks.convert_back(h3, &mut buf2);
    assert_eq!(buf2, longer);
}

#[test]
fn convert_stack_resolves_and_labels() {
    let mut queue = LibMappingOpQueue::new();
    queue.push(
        1,
        LibMappingOp::Add(LibMappingAdd {
            start_avma: 0x1000,
            end_avma: 0x2000,
            relocation_base: 0,
            info: LibMappingInfo { lib_id: 5 },
        }),
    );
    let mut hierarchy = LibMappingsHierarchy::new(queue);
    hierarchy.process_ops(1);
    let converter = StackConverter::new(CategoryHandle(1), CategoryHandle(2));
    let frames = vec![StackFrame::User(0x1800), StackFrame::Kernel(0x9999)];
    let out = converter.convert_stack(&frames, &hierarchy, None);
    assert_eq!(out.len(), 2);
    assert_eq!(out[0].category, CategoryHandle(1));
    assert!(matches!(
        out[0].location,
        FrameLocation::Resolved { lib_id: 5, relative_address: 0x800 }
    ));
    assert_eq!(out[1].category, CategoryHandle(2));
    assert!(matches!(out[1].location, FrameLocation::Unknown { address: 0x9999 }));
}

#[test]
fn intern_string_deduplicates_by_content() {
    let mut profile = Profile::new();
    let a = profile.intern_string("alpha");
    let b = profile.intern_string("beta");
    let a2 = profile.intern_string("alpha");
    assert_eq!(a, a2);
    assert_ne!(a, b);
    assert_eq!(profile.strings.len(), 2);
    assert_eq!(profile.get_string(a), "alpha");
}

#[test]
fn flush_routes_samples_markers_and_counters() {
    let mut profile = Profile::new();
    let mut stacks = UnresolvedStacks::new();
    let frames = vec![StackFrame::User(0x1100)];
    let h = stacks.convert(&frames);

    let mut queue = LibMappingOpQueue::new();
    queue.push(
        0,
        LibMappingOp::Add(LibMappingAdd {
            start_avma: 0x1000,
            end_avma: 0x2000,
            relocation_base: 0,
            info: LibMappingInfo { lib_id: 1 },
        }),
    );

    let mut samples = UnresolvedSamples::new();
    samples.push(UnresolvedSampleOrMarker {
        thread_handle: ThreadHandle(0),
        timestamp: 10,
        timestamp_mono: 10,
        stack: h,
        sample_or_marker: SampleOrMarker::Sample(SampleData { cpu_delta: 1, weight: 1 }),
        extra_label_frame: None,
    });

    let custom = CounterOnThread {
        thread_handle: ThreadHandle(0),
        counter: Counter {
            name: "mygraph".to_string(),
            category: CounterCategory::Custom,
            description: "d".to_string(),
            color: None,
            samples: vec![CounterSample {
                timestamp: 5,
                value_text: "7".to_string(),
                modification_count: 0,
            }],
        },
    };
    let native = CounterOnThread {
        thread_handle: ThreadHandle(0),
        counter: Counter {
            name: "mem".to_string(),
            category: CounterCategory::Memory,
            description: "d".to_string(),
            color: None,
            samples: vec![CounterSample {
                timestamp: 6,
                value_text: "9".to_string(),
                modification_count: 2,
            }],
        },
    };

    let markers: Vec<MarkerOnThread> = Vec::new();
    let data = ProcessSampleData::new(
        samples,
        queue,
        Vec::new(),
        None,
        markers,
        vec![custom, native],
        ProcessHandle(0),
    );
    assert!(!data.is_empty());
    let mut scratch: Vec<StackFrame> = Vec::new();
    let stats = data.flush_samples_to_profile(
        &mut profile,
        CategoryHandle(0),
        CategoryHandle(0),
        &mut scratch,
        &stacks,
    );
    assert!(stats.is_empty());
    assert_eq!(profile.samples.len(), 1);
    assert!(matches!(
        profile.samples[0].frames[0].location,
        FrameLocation::Resolved { lib_id: 1, relative_address: 0x100 }
    ));
    // the Custom counter became one marker; the Memory counter one track
    assert_eq!(profile.markers.len(), 1);
    assert_eq!(profile.counters.len(), 1);
    assert_eq!(profile.counters[0].name, "mem");
    assert_eq!(profile.counters[0].samples.len(), 1);
    assert_eq!(profile.counters[0].samples[0].value_text, "9");
}
