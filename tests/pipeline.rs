use rea::error::Error;
use rea::event::EventTable;
use rea::pipeline::Pipeline;
use rea::plugin::{App, Extension, IOType, Port, R_E_AGeneric, R_E_A, Render, Value, ValueType};

fn port(name: &str, ty: ValueType) -> Port {
    Port { name: name.to_string(), ty }
}

/// An Extension that emits `value` on each of its outputs, plus the sum of
/// its integer inputs.
struct Ext {
    inputs: Vec<Port>,
    outputs: Vec<Port>,
    value: i64,
}

impl R_E_AGeneric for Ext {
    fn get_name(&self) -> String {
        "ext".to_string()
    }
    fn get_inputs(&self) -> Vec<Port> {
        self.inputs.clone()
    }
}

impl Extension for Ext {
    fn get_outputs(&self) -> Vec<Port> {
        self.outputs.clone()
    }
    fn run(&self, inputs: IOType) -> Result<IOType, String> {
        let mut sum = self.value;
        for (_, v) in inputs.iter() {
            if let Value::Int(i) = v {
                sum += i;
            }
        }
        Ok(self.outputs.iter().map(|p| (p.name.clone(), Value::Int(sum))).collect())
    }
}

/// An App that appends `#<count>` to every label, or fails when asked to.
struct Tagger {
    inputs: Vec<Port>,
    fail: bool,
}

impl R_E_AGeneric for Tagger {
    fn get_name(&self) -> String {
        "tagger".to_string()
    }
    fn get_inputs(&self) -> Vec<Port> {
        self.inputs.clone()
    }
}

impl App for Tagger {
    fn run(&self, et: EventTable, inputs: IOType) -> Result<EventTable, String> {
        if self.fail {
            return Err("refused".to_string());
        }
        let mut et = et;
        let mut suffix = String::new();
        for (name, v) in inputs.iter() {
            if let Value::Int(i) = v {
                suffix.push_str(&format!("#{}={}", name, i));
            }
        }
        let ids: Vec<u128> = et.get_events().iter().map(|e| e.uuid()).collect();
        for id in ids {
            et.append_name(id, &suffix).map_err(|_| "append".to_string())?;
        }
        Ok(et)
    }
}

struct Viewer;

impl R_E_AGeneric for Viewer {
    fn get_name(&self) -> String {
        "viewer".to_string()
    }
    fn get_inputs(&self) -> Vec<Port> {
        Vec::new()
    }
}

impl Render for Viewer {
    fn run(&self, _et: EventTable, _inputs: IOType) -> Result<(), String> {
        Ok(())
    }
}

type P = Pipeline<Viewer, Ext, Tagger>;

fn timeline() -> EventTable {
    let mut t = EventTable::new();
    t.add_with_id(1, "Standup".to_string(), 540, 555).unwrap();
    t
}

fn counter(value: i64) -> R_E_A<Viewer, Ext, Tagger> {
    R_E_A::Extension(Ext { inputs: vec![], outputs: vec![port("count", ValueType::Int)], value })
}

fn tagger(inputs: Vec<Port>) -> R_E_A<Viewer, Ext, Tagger> {
    R_E_A::App(Tagger { inputs, fail: false })
}

#[test]
fn extension_feeds_app_in_same_run() {
    let mut p: P = Pipeline::new(true, timeline());
    let e = p.register(counter(7));
    let a = p.register(tagger(vec![port("count", ValueType::Int)]));
    p.connect(e, "count".to_string(), a, "count".to_string()).unwrap();
    p.add_step(a, vec![]).unwrap();
    p.run_full().unwrap();
    assert_eq!(p.execution_order().clone(), vec![vec![e, a]]);
    assert!(matches!(p.buffered(e, &"count".to_string()), Some(Value::Int(7))));
    let t = p.current_timeline();
    assert_eq!(t.get(1).unwrap().label(), "Standup#count=7");
    assert!(p.has_run(e) && p.has_run(a));
}

#[test]
fn app_before_its_producer_misses_buffer() {
    let mut p: P = Pipeline::new(true, timeline());
    let e = p.register(counter(7));
    let a = p.register(tagger(vec![port("count", ValueType::Int)]));
    p.connect(e, "count".to_string(), a, "count".to_string()).unwrap();
    let r = p.execute_element(a);
    assert!(matches!(r, Err(Error::BufferMissError { source, .. }) if source == e));
    assert!(!p.has_run(a));
    assert_eq!(p.current_timeline().get(1).unwrap().label(), "Standup");
}

#[test]
fn connect_rejects_type_mismatch() {
    let mut p: P = Pipeline::new(true, timeline());
    let e = p.register(counter(7));
    let a = p.register(tagger(vec![port("count", ValueType::Text)]));
    let r = p.connect(e, "count".to_string(), a, "count".to_string());
    assert!(matches!(r, Err(Error::TypeMismatchError { .. })));
}

#[test]
fn connect_rejects_unknown_ports_and_instances() {
    let mut p: P = Pipeline::new(true, timeline());
    let e = p.register(counter(7));
    let a = p.register(tagger(vec![port("count", ValueType::Int)]));
    assert!(matches!(
        p.connect(e, "nope".to_string(), a, "count".to_string()),
        Err(Error::MissingConnectionError { .. })
    ));
    assert!(matches!(
        p.connect(e, "count".to_string(), a, "nope".to_string()),
        Err(Error::MissingConnectionError { .. })
    ));
    assert!(matches!(
        p.connect(9, "count".to_string(), a, "count".to_string()),
        Err(Error::UnknownInstanceError { instance: 9 })
    ));
}

#[test]
fn unconnected_input_is_missing_connection() {
    let mut p: P = Pipeline::new(true, timeline());
    let a = p.register(tagger(vec![port("count", ValueType::Int)]));
    p.add_step(a, vec![]).unwrap();
    let r = p.run_full();
    assert!(matches!(r, Err(Error::MissingConnectionError { instance, .. }) if instance == a));
}

#[test]
fn cycle_fails_build_and_runs_nothing() {
    let mut p: P = Pipeline::new(true, timeline());
    let x = p.register(R_E_A::Extension(Ext {
        inputs: vec![port("in", ValueType::Int)],
        outputs: vec![port("out", ValueType::Int)],
        value: 1,
    }));
    let y = p.register(R_E_A::Extension(Ext {
        inputs: vec![port("in", ValueType::Int)],
        outputs: vec![port("out", ValueType::Int)],
        value: 2,
    }));
    let a = p.register(tagger(vec![port("count", ValueType::Int)]));
    p.connect(x, "out".to_string(), y, "in".to_string()).unwrap();
    p.connect(y, "out".to_string(), x, "in".to_string()).unwrap();
    p.connect(x, "out".to_string(), a, "count".to_string()).unwrap();
    p.add_step(a, vec![]).unwrap();
    let r = p.run_full();
    match r {
        Err(Error::CyclicDependencyError { nodes }) => assert_eq!(nodes, vec![x, y]),
        other => panic!("expected a cycle, got {:?}", other),
    }
    assert!(!p.has_run(x) && !p.has_run(y) && !p.has_run(a));
    assert_eq!(p.current_timeline().get(1).unwrap().label(), "Standup");
    assert!(p.execution_order().is_empty());
}

#[test]
fn chain_is_ordered_by_dependency_then_id() {
    let mut p: P = Pipeline::new(true, timeline());
    // registered consumer-first, so id order alone would be wrong
    let late = p.register(R_E_A::Extension(Ext {
        inputs: vec![port("in", ValueType::Int)],
        outputs: vec![port("count", ValueType::Int)],
        value: 10,
    }));
    let early = p.register(counter(5));
    let unrelated = p.register(counter(100));
    let v = p.register(R_E_A::Render(Viewer));
    let a = p.register(tagger(vec![port("count", ValueType::Int)]));
    p.connect(early, "count".to_string(), late, "in".to_string()).unwrap();
    p.connect(late, "count".to_string(), a, "count".to_string()).unwrap();
    p.add_step(a, vec![v]).unwrap();
    p.run_full().unwrap();
    assert_eq!(p.execution_order().clone(), vec![vec![early, late, v, a]]);
    assert!(!p.has_run(unrelated));
    assert_eq!(p.current_timeline().get(1).unwrap().label(), "Standup#count=15");
}

#[test]
fn extension_shared_by_two_steps_runs_once() {
    let mut p: P = Pipeline::new(true, timeline());
    let e = p.register(counter(3));
    let a1 = p.register(tagger(vec![port("count", ValueType::Int)]));
    let a2 = p.register(tagger(vec![port("count", ValueType::Int)]));
    p.connect(e, "count".to_string(), a1, "count".to_string()).unwrap();
    p.connect(e, "count".to_string(), a2, "count".to_string()).unwrap();
    p.add_step(a1, vec![]).unwrap();
    p.add_step(a2, vec![]).unwrap();
    p.run_full().unwrap();
    assert_eq!(p.execution_order().clone(), vec![vec![e, a1], vec![a2]]);
    assert_eq!(p.current_timeline().get(1).unwrap().label(), "Standup#count=3#count=3");
}

#[test]
fn run_until_first_step_only() {
    let mut p: P = Pipeline::new(true, timeline());
    let a1 = p.register(tagger(vec![]));
    let a2 = p.register(tagger(vec![]));
    p.add_step(a1, vec![]).unwrap();
    p.add_step(a2, vec![]).unwrap();
    p.run_baseline_until(0).unwrap();
    assert!(p.has_run(a1));
    assert!(!p.has_run(a2));
    assert!(matches!(p.run_baseline_until(2), Err(Error::UnknownStepError { step: 2 })));
}

#[test]
fn repeated_instance_in_one_run_fails() {
    let mut p: P = Pipeline::new(true, timeline());
    let a = p.register(tagger(vec![]));
    p.add_step(a, vec![]).unwrap();
    p.add_step(a, vec![]).unwrap();
    let r = p.run_full();
    assert!(matches!(r, Err(Error::AlreadyExecutedError { instance }) if instance == a));
    // the first step's effect stays
    assert_eq!(p.current_timeline().get(1).unwrap().label(), "Standup");
}

#[test]
fn failing_app_leaves_timeline() {
    let mut p: P = Pipeline::new(true, timeline());
    let a = p.register(R_E_A::App(Tagger { inputs: vec![], fail: true }));
    p.add_step(a, vec![]).unwrap();
    let r = p.run_full();
    assert!(matches!(r, Err(Error::PluginError { instance, .. }) if instance == a));
    assert_eq!(p.current_timeline().len(), 1);
    assert!(p.has_run(a));
}

#[test]
fn class_checks_on_baseline() {
    let mut p: P = Pipeline::new(true, timeline());
    let e = p.register(counter(1));
    let v = p.register(R_E_A::Render(Viewer));
    let a = p.register(tagger(vec![]));
    assert!(matches!(p.add_step(e, vec![]), Err(Error::ClassMismatchError { instance }) if instance == e));
    assert!(matches!(p.add_step(a, vec![e]), Err(Error::ClassMismatchError { instance }) if instance == e));
    assert!(matches!(p.add_step(a, vec![7]), Err(Error::UnknownInstanceError { instance: 7 })));
    assert!(p.add_step(a, vec![v]).is_ok());

    let mut q: P = Pipeline::new(false, timeline());
    let e2 = q.register(counter(1));
    assert!(q.add_step(e2, vec![]).is_ok());
}

#[test]
fn identical_pipelines_give_identical_results() {
    let build = || {
        let mut p: P = Pipeline::new(true, timeline());
        let e = p.register(counter(4));
        let a = p.register(tagger(vec![port("count", ValueType::Int)]));
        p.connect(e, "count".to_string(), a, "count".to_string()).unwrap();
        p.add_step(a, vec![]).unwrap();
        p.run_full().unwrap();
        p
    };
    let p1 = build();
    let p2 = build();
    assert_eq!(
        p1.current_timeline().get(1).unwrap().label(),
        p2.current_timeline().get(1).unwrap().label()
    );
    assert_eq!(p1.execution_order().clone(), p2.execution_order().clone());
    assert!(matches!(
        (p1.buffered(0, &"count".to_string()), p2.buffered(0, &"count".to_string())),
        (Some(Value::Int(4)), Some(Value::Int(4)))
    ));
}

#[test]
fn unknown_instance_cannot_execute() {
    let mut p: P = Pipeline::new(true, timeline());
    assert!(matches!(p.execute_element(0), Err(Error::UnknownInstanceError { instance: 0 })));
}

#[test]
fn empty_baseline_runs_nothing() {
    let mut p: P = Pipeline::new(true, timeline());
    assert!(p.run_full().is_ok());
}

#[test]
fn export_then_import_reproduces_topology() {
    let mut p: P = Pipeline::new(true, timeline());
    let e = p.register(counter(2));
    let v = p.register(R_E_A::Render(Viewer));
    let a = p.register(tagger(vec![port("count", ValueType::Int)]));
    p.connect(e, "count".to_string(), a, "count".to_string()).unwrap();
    p.add_step(a, vec![v]).unwrap();
    let topo = p.export();
    assert!(topo.check_classes);
    assert_eq!(topo.names, vec!["ext".to_string(), "viewer".to_string(), "tagger".to_string()]);
    assert_eq!(topo.connections.len(), 1);
    assert_eq!(topo.baseline.len(), 1);
    assert_eq!(topo.baseline[0].renders, vec![v]);

    let plugins = vec![counter(2), R_E_A::Render(Viewer), tagger(vec![port("count", ValueType::Int)])];
    let mut q: P = match Pipeline::import(plugins, &topo, timeline()) {
        Ok(q) => q,
        Err(err) => panic!("import failed: {:?}", err),
    };
    p.run_full().unwrap();
    q.run_full().unwrap();
    assert_eq!(p.execution_order().clone(), q.execution_order().clone());
    assert_eq!(
        p.current_timeline().get(1).unwrap().label(),
        q.current_timeline().get(1).unwrap().label()
    );
}

#[test]
fn import_rejects_wrong_plugins() {
    let mut p: P = Pipeline::new(true, timeline());
    let e = p.register(counter(2));
    let a = p.register(tagger(vec![port("count", ValueType::Int)]));
    p.connect(e, "count".to_string(), a, "count".to_string()).unwrap();
    let topo = p.export();
    let swapped = vec![tagger(vec![port("count", ValueType::Int)]), counter(2)];
    assert!(matches!(
        Pipeline::import(swapped, &topo, timeline()),
        Err(Error::TopologyMismatchError { instance: 0 })
    ));
    let too_few = vec![counter(2)];
    assert!(matches!(
        Pipeline::<Viewer, Ext, Tagger>::import(too_few, &topo, timeline()),
        Err(Error::TopologyMismatchError { instance: 1 })
    ));
    // the stored connection needs the App's input port
    let no_port = vec![counter(2), tagger(vec![])];
    assert!(matches!(
        Pipeline::import(no_port, &topo, timeline()),
        Err(Error::MissingConnectionError { .. })
    ));
}

/// An Extension that reports whatever outputs it was built with.
struct Raw {
    outputs: Vec<Port>,
    produced: Vec<(String, i64)>,
}

impl R_E_AGeneric for Raw {
    fn get_name(&self) -> String {
        "raw".to_string()
    }
    fn get_inputs(&self) -> Vec<Port> {
        Vec::new()
    }
}

impl Extension for Raw {
    fn get_outputs(&self) -> Vec<Port> {
        self.outputs.clone()
    }
    fn run(&self, _inputs: IOType) -> Result<IOType, String> {
        Ok(self.produced.iter().map(|(n, v)| (n.clone(), Value::Int(*v))).collect())
    }
}

fn raw_pipeline(produced: Vec<(String, i64)>) -> (Pipeline<Viewer, Raw, Tagger>, usize) {
    let mut p: Pipeline<Viewer, Raw, Tagger> = Pipeline::new(true, timeline());
    let e = p.register(R_E_A::Extension(Raw { outputs: vec![port("count", ValueType::Int)], produced }));
    (p, e)
}

#[test]
fn extension_output_on_undeclared_port_is_rejected() {
    let (mut p, e) = raw_pipeline(vec![("other".to_string(), 1)]);
    assert!(matches!(p.execute_element(e), Err(Error::OutputError { instance }) if instance == e));
    assert!(p.buffered(e, &"other".to_string()).is_none());
    assert!(p.has_run(e));
}

#[test]
fn extension_output_given_twice_is_rejected() {
    let (mut p, e) = raw_pipeline(vec![("count".to_string(), 1), ("count".to_string(), 2)]);
    assert!(matches!(p.execute_element(e), Err(Error::OutputError { .. })));
    assert!(p.buffered(e, &"count".to_string()).is_none());
}

#[test]
fn extension_declared_output_is_buffered_once() {
    let (mut p, e) = raw_pipeline(vec![("count".to_string(), 9)]);
    assert!(p.execute_element(e).is_ok());
    assert!(matches!(p.buffered(e, &"count".to_string()), Some(Value::Int(9))));
    assert!(matches!(p.execute_element(e), Err(Error::AlreadyExecutedError { .. })));
}

#[test]
fn render_result_is_passed_on() {
    let mut p: P = Pipeline::new(true, timeline());
    let v = p.register(R_E_A::Render(Viewer));
    assert!(p.execute_element(v).is_ok());
    assert_eq!(p.current_timeline().get(1).unwrap().label(), "Standup");
}

#[test]
fn import_of_empty_topology_succeeds() {
    let p: P = Pipeline::new(false, timeline());
    let topo = p.export();
    assert!(Pipeline::<Viewer, Ext, Tagger>::import(Vec::new(), &topo, timeline()).is_ok());
}

#[test]
fn import_rejects_step_of_wrong_class() {
    let mut p: P = Pipeline::new(false, timeline());
    let e = p.register(counter(1));
    p.add_step(e, vec![]).unwrap();
    let mut topo = p.export();
    topo.check_classes = true;
    assert!(matches!(
        Pipeline::<Viewer, Ext, Tagger>::import(vec![counter(1)], &topo, timeline()),
        Err(Error::ClassMismatchError { instance: 0 })
    ));
}

#[test]
fn names_compared_in_order() {
    let a = vec!["x".to_string(), "y".to_string()];
    let b = vec!["x".to_string(), "z".to_string()];
    assert_eq!(rea::pipeline::first_name_mismatch(&a, &b), Some(1));
    assert_eq!(rea::pipeline::first_name_mismatch(&a, &a), None);
}
