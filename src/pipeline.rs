use vstd::prelude::*;

use crate::error::Error;
use crate::event::{EventModel, EventTable};
use crate::plugin::{App, Extension, IOType, Port, R_E_A, R_E_AClass, Render, Value, ValueType};
use crate::schedule::{
    connections_ok,
    lemma_order_unique,
    order_step,
    step_ok,
    stuck,
    valid_order,
    Connection,
    Step,
};

verus! {

/// A value that an instance produced on one of its output ports.
#[derive(Debug, Clone)]
pub struct Produced {
    pub source: usize,
    pub port: String,
    pub value: Value,
}

/// `ports[k]` is the first port with this name.
pub open spec fn first_port(ports: Seq<Port>, name: Seq<char>, k: int) -> bool {
    &&& 0 <= k < ports.len()
    &&& ports[k].name@ == name
    &&& forall|j: int| 0 <= j < k ==> (#[trigger] ports[j]).name@ != name
}

/// No port has this name.
pub open spec fn no_port(ports: Seq<Port>, name: Seq<char>) -> bool {
    forall|j: int| 0 <= j < ports.len() ==> (#[trigger] ports[j]).name@ != name
}

/// `conns[k]` is the first connection that ends at this input port.
pub open spec fn first_conn(conns: Seq<Connection>, target: usize, port: Seq<char>, k: int) -> bool {
    &&& 0 <= k < conns.len()
    &&& conns[k].target == target && conns[k].target_port@ == port
    &&& forall|j: int| 0 <= j < k ==> !((#[trigger] conns[j]).target == target && conns[j].target_port@ == port)
}

/// No connection ends at this input port.
pub open spec fn no_conn(conns: Seq<Connection>, target: usize, port: Seq<char>) -> bool {
    forall|j: int| 0 <= j < conns.len() ==> !((#[trigger] conns[j]).target == target && conns[j].target_port@ == port)
}

/// `buf[k]` is the first value buffered for this output port.
pub open spec fn first_buffered(buf: Seq<Produced>, source: usize, port: Seq<char>, k: int) -> bool {
    &&& 0 <= k < buf.len()
    &&& buf[k].source == source && buf[k].port@ == port
    &&& forall|j: int| 0 <= j < k ==> !((#[trigger] buf[j]).source == source && buf[j].port@ == port)
}

/// Nothing is buffered for this output port.
pub open spec fn no_buffered(buf: Seq<Produced>, source: usize, port: Seq<char>) -> bool {
    forall|j: int| 0 <= j < buf.len() ==> !((#[trigger] buf[j]).source == source && buf[j].port@ == port)
}

/// The position of the first port with this name.
fn find_port(ports: &Vec<Port>, name: &String) -> (r: Option<usize>)
    ensures
        r is Some ==> first_port(ports@, name@, r->0 as int),
        r is None ==> no_port(ports@, name@),
{
    let mut k: usize = 0;
    while k < ports.len()
        invariant
            k <= ports@.len(),
            forall|j: int| 0 <= j < k ==> (#[trigger] ports@[j]).name@ != name@,
        decreases ports@.len() - k,
    {
        if ports[k].name == *name {
            return Some(k);
        }
        k = k + 1;
    }
    None
}

/// The position of the first connection that ends at this input port.
fn find_conn(conns: &Vec<Connection>, target: usize, port: &String) -> (r: Option<usize>)
    ensures
        r is Some ==> first_conn(conns@, target, port@, r->0 as int),
        r is None ==> no_conn(conns@, target, port@),
{
    let mut k: usize = 0;
    while k < conns.len()
        invariant
            k <= conns@.len(),
            forall|j: int| 0 <= j < k ==> !((#[trigger] conns@[j]).target == target && conns@[j].target_port@ == port@),
        decreases conns@.len() - k,
    {
        if conns[k].target == target && conns[k].target_port == *port {
            return Some(k);
        }
        k = k + 1;
    }
    None
}

/// The position of the first value buffered for this output port.
fn find_buffered(buf: &Vec<Produced>, source: usize, port: &String) -> (r: Option<usize>)
    ensures
        r is Some ==> first_buffered(buf@, source, port@, r->0 as int),
        r is None ==> no_buffered(buf@, source, port@),
{
    let mut k: usize = 0;
    while k < buf.len()
        invariant
            k <= buf@.len(),
            forall|j: int| 0 <= j < k ==> !((#[trigger] buf@[j]).source == source && buf@[j].port@ == port@),
        decreases buf@.len() - k,
    {
        if buf[k].source == source && buf[k].port == *port {
            return Some(k);
        }
        k = k + 1;
    }
    None
}

/// The step orders as sequences.
pub open spec fn order_views(orders: Seq<Vec<usize>>) -> Seq<Seq<usize>> {
    orders.map_values(|o: Vec<usize>| o@)
}

/// Instance `i` stands in one of the first `k` step orders.
pub open spec fn scheduled(orders: Seq<Seq<usize>>, k: int, i: int) -> bool {
    exists|j: int, p: int| 0 <= j < k && 0 <= p < orders[j].len() && orders[j][p] == i
}

/// Which of `n` instances the first `k` step orders hold.
pub open spec fn done_before(orders: Seq<Seq<usize>>, k: int, n: nat) -> Seq<bool> {
    Seq::new(n, |i: int| scheduled(orders, k, i))
}

/// Step `k` runs the Extensions it needs that no earlier step ran, each
/// after its producers, then its Renders, then its App.
pub open spec fn step_order_ok(
    classes: Seq<R_E_AClass>,
    conns: Seq<Connection>,
    steps: Seq<Step>,
    orders: Seq<Seq<usize>>,
    k: int,
) -> bool {
    exists|ext: Seq<usize>|
        #[trigger] valid_order(classes, conns, done_before(orders, k, classes.len()), steps[k], ext)
            && orders[k] == ext + steps[k].renders@ + seq![steps[k].app]
}

/// `orders` is an execution order for these steps.
pub open spec fn orders_valid(
    classes: Seq<R_E_AClass>,
    conns: Seq<Connection>,
    steps: Seq<Step>,
    orders: Seq<Seq<usize>>,
) -> bool {
    &&& orders.len() == steps.len()
    &&& forall|k: int| 0 <= k < steps.len() ==> #[trigger] step_order_ok(classes, conns, steps, orders, k)
}

/// A step's order depends only on the orders up to it.
proof fn lemma_prefix_stable(
    classes: Seq<R_E_AClass>,
    conns: Seq<Connection>,
    steps: Seq<Step>,
    a: Seq<Seq<usize>>,
    b: Seq<Seq<usize>>,
    j: int,
)
    requires
        0 <= j < a.len(),
        j < b.len(),
        forall|i: int| 0 <= i <= j ==> a[i] == b[i],
        step_order_ok(classes, conns, steps, a, j),
    ensures
        step_order_ok(classes, conns, steps, b, j),
{
    assert forall|x: int| 0 <= x < classes.len() implies scheduled(a, j, x) == scheduled(b, j, x) by {
        if scheduled(a, j, x) {
            let (i, p) = choose|i: int, p: int| 0 <= i < j && 0 <= p < a[i].len() && a[i][p] == x;
            assert(b[i] == a[i]);
        }
        if scheduled(b, j, x) {
            let (i, p) = choose|i: int, p: int| 0 <= i < j && 0 <= p < b[i].len() && b[i][p] == x;
            assert(b[i] == a[i]);
        }
    }
    assert(done_before(a, j, classes.len()) =~= done_before(b, j, classes.len()));
    let ext = choose|ext: Seq<usize>|
        #[trigger] valid_order(classes, conns, done_before(a, j, classes.len()), steps[j], ext)
            && a[j] == ext + steps[j].renders@ + seq![steps[j].app];
    assert(valid_order(classes, conns, done_before(b, j, classes.len()), steps[j], ext));
}

/// The error for an input port with no connection, or a connection from an
/// undeclared output port.
pub open spec fn missing(instance: usize, port: String) -> Error {
    Error::MissingConnectionError { instance, port }
}

/// The execution order is a function of the classes, the connections and
/// the baseline: two valid execution orders for them are the same.
pub proof fn lemma_orders_unique(
    classes: Seq<R_E_AClass>,
    conns: Seq<Connection>,
    steps: Seq<Step>,
    a: Seq<Seq<usize>>,
    b: Seq<Seq<usize>>,
)
    requires
        orders_valid(classes, conns, steps, a),
        orders_valid(classes, conns, steps, b),
    ensures
        a == b,
{
    lemma_orders_agree_from(classes, conns, steps, a, b, 0);
}

proof fn lemma_orders_agree_from(
    classes: Seq<R_E_AClass>,
    conns: Seq<Connection>,
    steps: Seq<Step>,
    a: Seq<Seq<usize>>,
    b: Seq<Seq<usize>>,
    k: int,
)
    requires
        orders_valid(classes, conns, steps, a),
        orders_valid(classes, conns, steps, b),
        0 <= k <= steps.len(),
        forall|j: int| 0 <= j < k ==> a[j] == b[j],
    ensures
        a == b,
    decreases steps.len() - k,
{
    if k == steps.len() {
        assert(a =~= b);
    } else {
        assert forall|x: int| 0 <= x < classes.len() implies scheduled(a, k, x) == scheduled(b, k, x) by {
            if scheduled(a, k, x) {
                let (i, p) = choose|i: int, p: int| 0 <= i < k && 0 <= p < a[i].len() && a[i][p] == x;
                assert(b[i] == a[i]);
            }
            if scheduled(b, k, x) {
                let (i, p) = choose|i: int, p: int| 0 <= i < k && 0 <= p < b[i].len() && b[i][p] == x;
                assert(b[i] == a[i]);
            }
        }
        let done = done_before(a, k, classes.len());
        assert(done =~= done_before(b, k, classes.len()));
        assert(step_order_ok(classes, conns, steps, a, k));
        assert(step_order_ok(classes, conns, steps, b, k));
        let ea = choose|ext: Seq<usize>|
            #[trigger] valid_order(classes, conns, done_before(a, k, classes.len()), steps[k], ext)
                && a[k] == ext + steps[k].renders@ + seq![steps[k].app];
        let eb = choose|ext: Seq<usize>|
            #[trigger] valid_order(classes, conns, done_before(b, k, classes.len()), steps[k], ext)
                && b[k] == ext + steps[k].renders@ + seq![steps[k].app];
        lemma_order_unique(classes, conns, done, steps[k], ea, eb);
        lemma_orders_agree_from(classes, conns, steps, a, b, k + 1);
    }
}

/// Every instance that a valid execution order names is registered.
proof fn lemma_orders_in_range(
    classes: Seq<R_E_AClass>,
    conns: Seq<Connection>,
    steps: Seq<Step>,
    orders: Seq<Seq<usize>>,
)
    requires
        orders_valid(classes, conns, steps, orders),
        forall|k: int| 0 <= k < steps.len() ==> step_ok(classes.len(), #[trigger] steps[k]),
    ensures
        forall|j: int, q: int| 0 <= j < orders.len() && 0 <= q < orders[j].len() ==> #[trigger] orders[j][q] < classes.len(),
{
    assert forall|j: int, q: int| 0 <= j < orders.len() && 0 <= q < orders[j].len() implies #[trigger] orders[j][q]
        < classes.len() by {
        assert(step_order_ok(classes, conns, steps, orders, j));
        let ext = choose|ext: Seq<usize>|
            #[trigger] valid_order(classes, conns, done_before(orders, j, classes.len()), steps[j], ext)
                && orders[j] == ext + steps[j].renders@ + seq![steps[j].app];
        assert(step_ok(classes.len(), steps[j]));
        if q < ext.len() {
            assert(orders[j][q] == ext[q]);
        } else if q < ext.len() + steps[j].renders@.len() {
            assert(orders[j][q] == steps[j].renders@[q - ext.len()]);
        } else {
            assert(orders[j][q] == steps[j].app);
        }
    }
}

/// What a pipeline is made of, apart from its plugins' state: each
/// instance's plugin name and class in id order, the connections, the
/// baseline and the class-check flag. Storing it is left to the caller.
pub struct Topology {
    pub check_classes: bool,
    pub names: Vec<String>,
    pub classes: Vec<R_E_AClass>,
    pub connections: Vec<Connection>,
    pub baseline: Vec<Step>,
}

fn copy_connection(c: &Connection) -> (r: Connection)
    ensures
        r == *c,
{
    Connection {
        source: c.source,
        source_port: c.source_port.clone(),
        target: c.target,
        target_port: c.target_port.clone(),
    }
}

/// The two baselines name the same instances in each step.
pub open spec fn same_steps(a: Seq<Step>, b: Seq<Step>) -> bool {
    &&& a.len() == b.len()
    &&& forall|k: int| 0 <= k < a.len() ==> (#[trigger] a[k]).app == b[k].app && a[k].renders@ == b[k].renders@
}

fn copy_step(st: &Step) -> (r: Step)
    ensures
        r.app == st.app,
        r.renders@ == st.renders@,
{
    let mut renders: Vec<usize> = Vec::new();
    let mut k: usize = 0;
    while k < st.renders.len()
        invariant
            k <= st.renders@.len(),
            renders@ == st.renders@.take(k as int),
        decreases st.renders@.len() - k,
    {
        renders.push(st.renders[k]);
        assert(st.renders@.take(k + 1) == st.renders@.take(k as int).push(st.renders@[k as int]));
        k = k + 1;
    }
    assert(st.renders@.take(st.renders@.len() as int) == st.renders@);
    Step { app: st.app, renders }
}

/// What a plugin's `run` handed back.
pub enum Outcome {
    Rendered(Result<(), String>),
    Extended(Result<IOType, String>),
    Applied(Result<EventTable, String>),
}

/// The connection leaves a declared output port and enters a declared input
/// port of the same type.
pub open spec fn ports_agree(outs: Seq<Port>, ins: Seq<Port>, c: Connection) -> bool {
    exists|a: int, b: int|
        #[trigger] first_port(outs, c.source_port@, a) && #[trigger] first_port(ins, c.target_port@, b) && outs[a].ty
            == ins[b].ty
}

/// The step may stand in a baseline over instances of these classes: it
/// names registered instances, and with class checks on, an App and Renders.
pub open spec fn step_allowed(classes: Seq<R_E_AClass>, check: bool, step: Step) -> bool {
    &&& step_ok(classes.len() as nat, step)
    &&& check ==> {
        &&& classes[step.app as int] == R_E_AClass::App
        &&& forall|k: int| 0 <= k < step.renders@.len() ==> classes[#[trigger] step.renders@[k] as int] == R_E_AClass::Render
    }
}

/// The position of the first name that differs between the two lists, which
/// have the same length.
pub fn first_name_mismatch(names: &Vec<String>, stored: &Vec<String>) -> (r: Option<usize>)
    requires
        names@.len() == stored@.len(),
    ensures
        r is None <==> forall|k: int| 0 <= k < names@.len() ==> (#[trigger] names@[k])@ == stored@[k]@,
        r is Some ==> r->0 < names@.len() && names@[r->0 as int]@ != stored@[r->0 as int]@ && forall|k: int|
            0 <= k < r->0 ==> (#[trigger] names@[k])@ == stored@[k]@,
{
    let mut k: usize = 0;
    while k < names.len()
        invariant
            names@.len() == stored@.len(),
            k <= names@.len(),
            forall|j: int| 0 <= j < k ==> (#[trigger] names@[j])@ == stored@[j]@,
        decreases names@.len() - k,
    {
        if names[k] != stored[k] {
            return Some(k);
        }
        k = k + 1;
    }
    None
}

/// Every instance that the step orders list before position `q` of step `s`
/// has run.
pub open spec fn ran_through(ran: Seq<bool>, orders: Seq<Seq<usize>>, s: int, q: int) -> bool {
    &&& forall|j: int, p: int| 0 <= j < s && 0 <= p < orders[j].len() ==> ran[#[trigger] orders[j][p] as int]
    &&& forall|p: int| 0 <= p < q ==> ran[#[trigger] orders[s][p] as int]
}

/// The class of plugin whose `run` gives this outcome.
pub open spec fn outcome_class(o: Outcome) -> R_E_AClass {
    match o {
        Outcome::Rendered(_) => R_E_AClass::Render,
        Outcome::Extended(_) => R_E_AClass::Extension,
        Outcome::Applied(_) => R_E_AClass::App,
    }
}

/// The output is on a declared port and of that port's type.
pub open spec fn output_declared(decl: Seq<Port>, out: (String, Value)) -> bool {
    exists|o: int| #[trigger] first_port(decl, out.0@, o) && decl[o].ty == out.1.spec_type()
}

/// Every output is declared, and no port appears twice.
pub open spec fn outputs_valid(decl: Seq<Port>, outs: Seq<(String, Value)>) -> bool {
    &&& forall|k: int| 0 <= k < outs.len() ==> output_declared(decl, #[trigger] outs[k])
    &&& forall|k: int, l: int| 0 <= k < l < outs.len() ==> (#[trigger] outs[k]).0@ != (#[trigger] outs[l]).0@
}

/// The outputs as buffer entries of producer `id`.
pub open spec fn tagged(id: usize, outs: Seq<(String, Value)>) -> Seq<Produced> {
    Seq::new(outs.len(), |k: int| Produced { source: id, port: outs[k].0, value: outs[k].1 })
}

/// No producer has two entries for one port: the buffer is written once
/// per port.
pub open spec fn buffer_unique(buf: Seq<Produced>) -> bool {
    forall|i: int, j: int|
        0 <= i < j < buf.len() ==> !((#[trigger] buf[i]).source == (#[trigger] buf[j]).source && buf[i].port@
            == buf[j].port@)
}

/// What taking outcome `o` of instance `id` (declared outputs `decl`) does:
/// `r` is the result, and the buffer and timeline go from `buf`, `tl` to
/// `nbuf`, `ntl`.
pub open spec fn outcome_effect(
    decl: Seq<Port>,
    id: usize,
    o: Outcome,
    buf: Seq<Produced>,
    tl: Seq<EventModel>,
    nbuf: Seq<Produced>,
    ntl: Seq<EventModel>,
    r: Result<(), Error>,
) -> bool {
    match o {
        Outcome::Rendered(res) => {
            &&& nbuf == buf && ntl == tl
            &&& match res {
                Ok(_) => r is Ok,
                Err(m) => r == Err::<(), Error>(Error::PluginError { instance: id, message: m }),
            }
        },
        Outcome::Extended(res) => {
            &&& ntl == tl
            &&& match res {
                Ok(outs) => if outputs_valid(decl, outs@) {
                    r is Ok && nbuf == buf + tagged(id, outs@)
                } else {
                    r == Err::<(), Error>(Error::OutputError { instance: id }) && nbuf == buf
                },
                Err(m) => r == Err::<(), Error>(Error::PluginError { instance: id, message: m }) && nbuf == buf,
            }
        },
        Outcome::Applied(res) => {
            &&& nbuf == buf
            &&& match res {
                Ok(t) => if t.wf() {
                    r is Ok && ntl == t@
                } else {
                    r == Err::<(), Error>(Error::CorruptionError) && ntl == tl
                },
                Err(m) => r == Err::<(), Error>(Error::PluginError { instance: id, message: m }) && ntl == tl,
            }
        },
    }
}

proof fn lemma_first_port_unique(ports: Seq<Port>, name: Seq<char>, a: int, b: int)
    requires
        first_port(ports, name, a),
        first_port(ports, name, b),
    ensures
        a == b,
{
    if a < b {
        assert(ports[a].name@ != name);
    } else if b < a {
        assert(ports[b].name@ != name);
    }
}

proof fn lemma_first_conn_unique(conns: Seq<Connection>, target: usize, port: Seq<char>, a: int, b: int)
    requires
        first_conn(conns, target, port, a),
        first_conn(conns, target, port, b),
    ensures
        a == b,
{
    if a < b {
        assert(!((conns[a]).target == target && conns[a].target_port@ == port));
    } else if b < a {
        assert(!((conns[b]).target == target && conns[b].target_port@ == port));
    }
}

/// The engine: a registry of plugin instances (the id of an instance is its
/// position of registration), typed connections between their ports, the
/// baseline, the execution order derived from them, the buffer of produced
/// values and the current timeline.
pub struct Pipeline<R, E, A> {
    /// When set, baseline slots must name instances of the right class.
    check_classes: bool,
    plugins: Vec<R_E_A<R, E, A>>,
    classes: Vec<R_E_AClass>,
    inputs: Vec<Vec<Port>>,
    outputs: Vec<Vec<Port>>,
    connections: Vec<Connection>,
    baseline: Vec<Step>,
    execution_order: Vec<Vec<usize>>,
    memory_buffer: Vec<Produced>,
    executed: Vec<bool>,
    current_et: EventTable,
}

impl<R: Render, E: Extension, A: App> Pipeline<R, E, A> {
    pub closed spec fn checks_classes(&self) -> bool {
        self.check_classes
    }

    pub closed spec fn classes(&self) -> Seq<R_E_AClass> {
        self.classes@
    }

    pub closed spec fn inputs_of(&self, i: int) -> Seq<Port> {
        self.inputs@[i]@
    }

    pub closed spec fn outputs_of(&self, i: int) -> Seq<Port> {
        self.outputs@[i]@
    }

    pub closed spec fn conns(&self) -> Seq<Connection> {
        self.connections@
    }

    pub closed spec fn steps(&self) -> Seq<Step> {
        self.baseline@
    }

    pub closed spec fn orders(&self) -> Seq<Seq<usize>> {
        order_views(self.execution_order@)
    }

    pub closed spec fn buffer(&self) -> Seq<Produced> {
        self.memory_buffer@
    }

    pub closed spec fn ran(&self) -> Seq<bool> {
        self.executed@
    }

    pub closed spec fn timeline(&self) -> Seq<EventModel> {
        self.current_et@
    }

    /// The engine's invariant.
    pub closed spec fn wf(&self) -> bool {
        let n = self.classes@.len();
        &&& self.plugins@.len() == n
        &&& self.inputs@.len() == n
        &&& self.outputs@.len() == n
        &&& self.executed@.len() == n
        &&& forall|i: int| 0 <= i < n ==> (#[trigger] self.plugins@[i]).spec_class() == self.classes@[i]
        &&& forall|i: int|
            0 <= i < n && self.classes@[i] != R_E_AClass::Extension ==> (#[trigger] self.outputs@[i])@.len() == 0
        &&& connections_ok(self.classes@, self.connections@)
        &&& forall|k: int| 0 <= k < self.baseline@.len() ==> step_ok(n as nat, #[trigger] self.baseline@[k])
        &&& self.current_et.wf()
        &&& forall|k: int|
            0 <= k < self.memory_buffer@.len() ==> (#[trigger] self.memory_buffer@[k]).source < n
                && self.executed@[self.memory_buffer@[k].source as int]
        &&& buffer_unique(self.memory_buffer@)
        &&& forall|c: int|
            0 <= c < self.connections@.len() ==> #[trigger] ports_agree(
                self.outputs@[self.connections@[c].source as int]@,
                self.inputs@[self.connections@[c].target as int]@,
                self.connections@[c],
            )
    }

    /// An engine with nothing registered, over the given timeline.
    pub fn new(check_classes: bool, et: EventTable) -> (r: Self)
        requires
            et.wf(),
        ensures
            r.wf(),
            r.checks_classes() == check_classes,
            r.classes().len() == 0,
            r.conns().len() == 0,
            r.steps().len() == 0,
            r.orders().len() == 0,
            r.buffer().len() == 0,
            r.timeline() == et@,
    {
        let r = Pipeline {
            check_classes,
            plugins: Vec::new(),
            classes: Vec::new(),
            inputs: Vec::new(),
            outputs: Vec::new(),
            connections: Vec::new(),
            baseline: Vec::new(),
            execution_order: Vec::new(),
            memory_buffer: Vec::new(),
            executed: Vec::new(),
            current_et: et,
        };
        assert(r.orders() =~= Seq::<Seq<usize>>::empty());
        r
    }

    /// Registers an instance and returns its id. Its ports are read once,
    /// here.
    pub fn register(&mut self, plugin: R_E_A<R, E, A>) -> (r: usize)
        requires
            old(self).wf(),
        ensures
            final(self).wf(),
            r == old(self).classes().len(),
            final(self).classes() == old(self).classes().push(plugin.spec_class()),
            forall|i: int| 0 <= i < r ==> final(self).inputs_of(i) == old(self).inputs_of(i),
            forall|i: int| 0 <= i < r ==> final(self).outputs_of(i) == old(self).outputs_of(i),
            plugin.spec_class() != R_E_AClass::Extension ==> final(self).outputs_of(r as int).len() == 0,
            final(self).conns() == old(self).conns(),
            final(self).steps() == old(self).steps(),
            final(self).timeline() == old(self).timeline(),
            final(self).checks_classes() == old(self).checks_classes(),
    {
        let id = self.classes.len();
        let class = plugin.get_class();
        let ins = plugin.get_inputs();
        let outs = plugin.get_outputs();
        self.plugins.push(plugin);
        self.classes.push(class);
        self.inputs.push(ins);
        self.outputs.push(outs);
        self.executed.push(false);
        proof {
            let n = self.classes@.len();
            assert forall|i: int| 0 <= i < n implies (#[trigger] self.plugins@[i]).spec_class() == self.classes@[i] by {
            }
            assert forall|c: int| 0 <= c < self.connections@.len() implies {
                &&& (#[trigger] self.connections@[c]).source < n
                &&& self.connections@[c].target < n
                &&& self.classes@[self.connections@[c].source as int] == R_E_AClass::Extension
            } by {
                assert(old(self).classes@[self.connections@[c].source as int] == R_E_AClass::Extension);
            }
            assert forall|k: int| 0 <= k < self.baseline@.len() implies step_ok(n as nat, #[trigger] self.baseline@[k]) by {
                assert(step_ok((n - 1) as nat, self.baseline@[k]));
            }
        }
        id
    }

    /// Connects an output port of `source` to an input port of `target`,
    /// checked now: both instances exist, both ports are declared, and their
    /// value types agree.
    pub fn connect(&mut self, source: usize, source_port: String, target: usize, target_port: String) -> (r: Result<(), Error>)
        requires
            old(self).wf(),
        ensures
            final(self).wf(),
            r is Err ==> r->Err_0 is UnknownInstanceError || r->Err_0 is MissingConnectionError || r->Err_0 is TypeMismatchError,
            final(self).checks_classes() == old(self).checks_classes(),
            final(self).classes() == old(self).classes(),
            final(self).steps() == old(self).steps(),
            final(self).timeline() == old(self).timeline(),
            r is Err ==> final(self).conns() == old(self).conns(),
            r is Ok ==> final(self).conns() == old(self).conns().push(
                (Connection { source, source_port, target, target_port }),
            ),
            source >= old(self).classes().len() ==> r is Err && r->Err_0 == (Error::UnknownInstanceError { instance: source }),
            source < old(self).classes().len() && target >= old(self).classes().len() ==> r is Err && r->Err_0
                == (Error::UnknownInstanceError { instance: target }),
            source < old(self).classes().len() && target < old(self).classes().len() ==> {
                let outs = old(self).outputs_of(source as int);
                let ins = old(self).inputs_of(target as int);
                &&& no_port(outs, source_port@) ==> r is Err && r->Err_0 is MissingConnectionError
                &&& !no_port(outs, source_port@) && no_port(ins, target_port@) ==> r is Err && r->Err_0 is MissingConnectionError
                &&& forall|a: int, b: int|
                    first_port(outs, source_port@, a) && first_port(ins, target_port@, b) ==> (r is Ok <==> outs[a].ty
                        == ins[b].ty)
                &&& forall|a: int, b: int|
                    first_port(outs, source_port@, a) && first_port(ins, target_port@, b) && outs[a].ty
                        != ins[b].ty ==> r is Err && r->Err_0 is TypeMismatchError
            },
    {
        let n = self.classes.len();
        if source >= n {
            return Err(Error::UnknownInstanceError { instance: source });
        }
        if target >= n {
            return Err(Error::UnknownInstanceError { instance: target });
        }
        let a = match find_port(&self.outputs[source], &source_port) {
            Some(a) => a,
            None => {
                return Err(Error::MissingConnectionError { instance: source, port: source_port });
            },
        };
        let b = match find_port(&self.inputs[target], &target_port) {
            Some(b) => b,
            None => {
                return Err(Error::MissingConnectionError { instance: target, port: target_port });
            },
        };
        proof {
            assert(forall|x: int, y: int|
                first_port(self.outputs@[source as int]@, source_port@, x) && first_port(
                    self.inputs@[target as int]@,
                    target_port@,
                    y,
                ) ==> x == a && y == b);
        }
        if self.outputs[source][a].ty != self.inputs[target][b].ty {
            return Err(
                Error::TypeMismatchError { source, source_port, target, target_port },
            );
        }
        proof {
            assert(self.outputs@[source as int]@.len() > 0);
            let cn = Connection { source, source_port, target, target_port };
            assert(first_port(self.outputs@[source as int]@, cn.source_port@, a as int));
            assert(first_port(self.inputs@[target as int]@, cn.target_port@, b as int));
            assert(self.outputs@[source as int]@[a as int].ty == self.inputs@[target as int]@[b as int].ty);
            assert(ports_agree(self.outputs@[source as int]@, self.inputs@[target as int]@, cn));
        }
        self.connections.push(Connection { source, source_port, target, target_port });
        Ok(())
    }

    /// Appends a baseline step: an App and the Renders that run before it.
    /// With `check_classes` set, the slots must hold instances of those
    /// classes.
    pub fn add_step(&mut self, app: usize, renders: Vec<usize>) -> (r: Result<(), Error>)
        requires
            old(self).wf(),
        ensures
            final(self).wf(),
            final(self).checks_classes() == old(self).checks_classes(),
            final(self).classes() == old(self).classes(),
            final(self).conns() == old(self).conns(),
            final(self).timeline() == old(self).timeline(),
            r is Err ==> final(self).steps() == old(self).steps(),
            r is Ok ==> final(self).steps() == old(self).steps().push((Step { app, renders })),
            r is Ok <==> step_allowed(old(self).classes(), old(self).checks_classes(), (Step { app, renders })),
            r is Err ==> r->Err_0 is UnknownInstanceError || r->Err_0 is ClassMismatchError,
    {
        let n = self.classes.len();
        if app >= n {
            return Err(Error::UnknownInstanceError { instance: app });
        }
        if self.check_classes && self.classes[app] != R_E_AClass::App {
            return Err(Error::ClassMismatchError { instance: app });
        }
        let mut k: usize = 0;
        while k < renders.len()
            invariant
                self.wf(),
                n == self.classes@.len(),
                k <= renders@.len(),
                forall|j: int| 0 <= j < k ==> #[trigger] renders@[j] < n,
                self.check_classes ==> forall|j: int|
                    0 <= j < k ==> self.classes@[#[trigger] renders@[j] as int] == R_E_AClass::Render,
            decreases renders@.len() - k,
        {
            let x = renders[k];
            if x >= n {
                assert((Step { app, renders }).renders@[k as int] >= n);
                return Err(Error::UnknownInstanceError { instance: x });
            }
            if self.check_classes && self.classes[x] != R_E_AClass::Render {
                assert(self.classes@[renders@[k as int] as int] != R_E_AClass::Render);
                return Err(Error::ClassMismatchError { instance: x });
            }
            k = k + 1;
        }
        self.baseline.push(Step { app, renders });
        Ok(())
    }

    /// Computes the execution order of every baseline step. On a cycle the
    /// order already held is kept and the cycle is reported.
    pub fn generate_order_of_processing(&mut self) -> (r: Result<(), Error>)
        requires
            old(self).wf(),
        ensures
            final(self).wf(),
            final(self).classes() == old(self).classes(),
            final(self).conns() == old(self).conns(),
            final(self).steps() == old(self).steps(),
            final(self).timeline() == old(self).timeline(),
            final(self).buffer() == old(self).buffer(),
            final(self).ran() == old(self).ran(),
            r is Ok ==> orders_valid(final(self).classes(), final(self).conns(), final(self).steps(), final(self).orders()),
            r is Err ==> final(self).orders() == old(self).orders(),
            r is Err ==> r->Err_0 is CyclicDependencyError && exists|done: Seq<bool>|
                stuck(final(self).conns(), done, r->Err_0->nodes@),
    {
        let n = self.classes.len();
        let mut done: Vec<bool> = Vec::new();
        let mut i: usize = 0;
        while i < n
            invariant
                n == self.classes@.len(),
                i <= n,
                done@.len() == i,
                forall|k: int| 0 <= k < i ==> !done@[k],
            decreases n - i,
        {
            done.push(false);
            i = i + 1;
        }
        let mut orders: Vec<Vec<usize>> = Vec::new();
        let mut k: usize = 0;
        while k < self.baseline.len()
            invariant
                self.wf(),
                n == self.classes@.len(),
                done@.len() == n,
                k <= self.baseline@.len(),
                orders@.len() == k,
                forall|x: int| 0 <= x < n ==> done@[x] == scheduled(order_views(orders@), k as int, x),
                forall|j: int|
                    0 <= j < k ==> #[trigger] step_order_ok(self.classes@, self.connections@, self.baseline@, order_views(orders@), j),
            decreases self.baseline@.len() - k,
        {
            let step = &self.baseline[k];
            assert(step_ok(n as nat, *step));
            let ghost view = order_views(orders@);
            assert(done@ =~= done_before(view, k as int, n as nat));
            let mut full = match order_step(&self.classes, &self.connections, &done, step) {
                Ok(ext) => ext,
                Err(e) => {
                    return Err(e);
                },
            };
            let ghost ext = full@;
            let mut q: usize = 0;
            while q < step.renders.len()
                invariant
                    step_ok(n as nat, *step),
                    q <= step.renders@.len(),
                    full@ == ext + step.renders@.take(q as int),
                decreases step.renders@.len() - q,
            {
                full.push(step.renders[q]);
                assert(step.renders@.take(q + 1) == step.renders@.take(q as int).push(step.renders@[q as int]));
                q = q + 1;
            }
            full.push(step.app);
            assert(step.renders@.take(step.renders@.len() as int) == step.renders@);
            assert(full@ == ext + step.renders@ + seq![step.app]);
            assert forall|p: int| 0 <= p < full@.len() implies #[trigger] full@[p] < n by {
                if p < ext.len() {
                    assert(ext[p] < n);
                } else if p < ext.len() + step.renders@.len() {
                    assert(step.renders@[p - ext.len()] < n);
                }
            }
            let mut m: usize = 0;
            while m < full.len()
                invariant
                    n == done@.len(),
                    m <= full@.len(),
                    forall|p: int| 0 <= p < full@.len() ==> #[trigger] full@[p] < n,
                    forall|x: int|
                        0 <= x < n ==> done@[x] == (scheduled(view, k as int, x) || exists|p: int|
                            0 <= p < m && full@[p] == x),
                decreases full@.len() - m,
            {
                let x = full[m];
                done.set(x, true);
                proof {
                    assert forall|y: int| 0 <= y < n implies done@[y] == (scheduled(view, k as int, y)
                        || exists|p: int| 0 <= p < m + 1 && full@[p] == y) by {
                        if y == x {
                            assert(full@[m as int] == y);
                        }
                    }
                }
                m = m + 1;
            }
            let ghost fv = full@;
            let ghost old_orders = orders@;
            orders.push(full);
            proof {
                let nv = order_views(orders@);
                assert(nv == view.push(fv));
                assert forall|x: int| 0 <= x < n implies done@[x] == scheduled(nv, k + 1, x) by {
                    if scheduled(view, k as int, x) {
                        let (j, p) = choose|j: int, p: int|
                            0 <= j < k && 0 <= p < view[j].len() && view[j][p] == x;
                        assert(nv[j] == view[j]);
                    }
                    if exists|p: int| 0 <= p < fv.len() && fv[p] == x {
                        let p = choose|p: int| 0 <= p < fv.len() && fv[p] == x;
                        assert(nv[k as int] == fv);
                    }
                    if scheduled(nv, k + 1, x) {
                        let (j, p) = choose|j: int, p: int|
                            0 <= j < k + 1 && 0 <= p < nv[j].len() && nv[j][p] == x;
                        if j < k {
                            assert(view[j] == nv[j]);
                        }
                    }
                }
                assert(done_before(view, k as int, n as nat) =~= done_before(nv, k as int, n as nat)) by {
                    assert forall|x: int| 0 <= x < n implies scheduled(view, k as int, x) == scheduled(nv, k as int, x) by {
                        if scheduled(view, k as int, x) {
                            let (j, p) = choose|j: int, p: int|
                                0 <= j < k && 0 <= p < view[j].len() && view[j][p] == x;
                            assert(nv[j] == view[j]);
                        }
                        if scheduled(nv, k as int, x) {
                            let (j, p) = choose|j: int, p: int|
                                0 <= j < k && 0 <= p < nv[j].len() && nv[j][p] == x;
                            assert(nv[j] == view[j]);
                        }
                    }
                }
                assert forall|j: int| 0 <= j < k + 1 implies #[trigger] step_order_ok(
                    self.classes@,
                    self.connections@,
                    self.baseline@,
                    nv,
                    j,
                ) by {
                    if j < k {
                        assert(step_order_ok(self.classes@, self.connections@, self.baseline@, view, j));
                        lemma_prefix_stable(self.classes@, self.connections@, self.baseline@, view, nv, j);
                    } else {
                        assert(nv[j] == fv);
                        assert(valid_order(self.classes@, self.connections@, done_before(nv, j, n as nat), self.baseline@[j], ext));
                    }
                }
            }
            k = k + 1;
        }
        self.execution_order = orders;
        Ok(())
    }

    /// Input port `p` of instance `id` receives `v`: the first connection
    /// that ends at the port leaves a port that its producer declares with
    /// the same type, and `v` is the first value buffered for that port.
    pub open spec fn resolves_to(&self, id: usize, p: Port, v: Value) -> bool {
        exists|c: int|
            #[trigger] first_conn(self.conns(), id, p.name@, c) && {
                let src = self.conns()[c].source;
                let sport = self.conns()[c].source_port@;
                exists|o: int, b: int|
                    #[trigger] first_port(self.outputs_of(src as int), sport, o) && #[trigger] first_buffered(
                        self.buffer(),
                        src,
                        sport,
                        b,
                    ) && self.outputs_of(src as int)[o].ty == p.ty && self.buffer()[b].value == v
            }
    }

    /// Input port `p` of instance `id` can be resolved: some value is
    /// buffered for the port that its first connection leaves, and the
    /// declared types agree.
    pub open spec fn port_ready(&self, id: usize, p: Port) -> bool {
        exists|c: int|
            #[trigger] first_conn(self.conns(), id, p.name@, c) && {
                let src = self.conns()[c].source;
                let sport = self.conns()[c].source_port@;
                exists|o: int, b: int|
                    #[trigger] first_port(self.outputs_of(src as int), sport, o) && #[trigger] first_buffered(
                        self.buffer(),
                        src,
                        sport,
                        b,
                    ) && self.outputs_of(src as int)[o].ty == p.ty
            }
    }

    /// The input ports of instance `id` before the `k`-th can all be resolved.
    pub open spec fn ready_before(&self, id: usize, k: int) -> bool {
        forall|j: int| 0 <= j < k ==> #[trigger] self.port_ready(id, self.inputs_of(id as int)[j])
    }

    /// When the connection into an input port leaves an output port of
    /// another declared type, that input is never ready, so `pull_inputs`
    /// cannot succeed for the instance and the plugin is not run.
    pub proof fn lemma_type_mismatch_blocks(&self, id: usize, k: int, c: int, o: int)
        requires
            0 <= k < self.inputs_of(id as int).len(),
            first_conn(self.conns(), id, self.inputs_of(id as int)[k].name@, c),
            first_port(
                self.outputs_of(self.conns()[c].source as int),
                self.conns()[c].source_port@,
                o,
            ),
            self.outputs_of(self.conns()[c].source as int)[o].ty != self.inputs_of(id as int)[k].ty,
        ensures
            !self.port_ready(id, self.inputs_of(id as int)[k]),
            !self.ready_before(id, self.inputs_of(id as int).len() as int),
    {
        let p = self.inputs_of(id as int)[k];
        if self.port_ready(id, p) {
            let c2 = choose|c2: int| #[trigger] first_conn(self.conns(), id, p.name@, c2) && {
                let src = self.conns()[c2].source;
                let sport = self.conns()[c2].source_port@;
                exists|o2: int, b: int|
                    #[trigger] first_port(self.outputs_of(src as int), sport, o2) && #[trigger] first_buffered(
                        self.buffer(),
                        src,
                        sport,
                        b,
                    ) && self.outputs_of(src as int)[o2].ty == p.ty
            };
            assert(c2 == c) by {
                if c2 < c {
                    assert(!((self.conns()[c2]).target == id && self.conns()[c2].target_port@ == p.name@));
                } else if c < c2 {
                    assert(!((self.conns()[c]).target == id && self.conns()[c].target_port@ == p.name@));
                }
            }
            let src = self.conns()[c].source;
            let sport = self.conns()[c].source_port@;
            let (o2, b) = choose|o2: int, b: int|
                #[trigger] first_port(self.outputs_of(src as int), sport, o2) && #[trigger] first_buffered(
                    self.buffer(),
                    src,
                    sport,
                    b,
                ) && self.outputs_of(src as int)[o2].ty == p.ty;
            assert(o2 == o) by {
                if o2 < o {
                    assert(self.outputs_of(src as int)[o2].name@ != sport);
                } else if o < o2 {
                    assert(self.outputs_of(src as int)[o].name@ != sport);
                }
            }
        }
    }

    /// A port that fails to resolve is not ready.
    pub proof fn lemma_fails_not_ready(&self, id: usize, p: Port, e: Error)
        requires
            self.fails_with(id, p, e),
        ensures
            !self.port_ready(id, p),
    {
        if self.port_ready(id, p) {
            let c2 = choose|c2: int| #[trigger] first_conn(self.conns(), id, p.name@, c2) && {
                let src = self.conns()[c2].source;
                let sport = self.conns()[c2].source_port@;
                exists|o2: int, b: int|
                    #[trigger] first_port(self.outputs_of(src as int), sport, o2) && #[trigger] first_buffered(
                        self.buffer(),
                        src,
                        sport,
                        b,
                    ) && self.outputs_of(src as int)[o2].ty == p.ty
            };
            let src = self.conns()[c2].source;
            let sport = self.conns()[c2].source_port@;
            let (o2, b) = choose|o2: int, b: int|
                #[trigger] first_port(self.outputs_of(src as int), sport, o2) && #[trigger] first_buffered(
                    self.buffer(),
                    src,
                    sport,
                    b,
                ) && self.outputs_of(src as int)[o2].ty == p.ty;
            assert(!no_conn(self.conns(), id, p.name@));
            let c = choose|c: int|
                #[trigger] first_conn(self.conns(), id, p.name@, c) && {
                    let src = self.conns()[c].source;
                    let sport = self.conns()[c].source_port;
                    ||| no_port(self.outputs_of(src as int), sport@) && e == missing(src, sport)
                    ||| exists|o: int|
                        #[trigger] first_port(self.outputs_of(src as int), sport@, o) && self.outputs_of(src as int)[o].ty != p.ty
                            && e == (Error::TypeMismatchError {
                            source: src,
                            source_port: sport,
                            target: id,
                            target_port: p.name,
                        })
                    ||| exists|o: int|
                        #[trigger] first_port(self.outputs_of(src as int), sport@, o) && self.outputs_of(src as int)[o].ty == p.ty
                            && no_buffered(self.buffer(), src, sport@) && e == (Error::BufferMissError {
                            source: src,
                            source_port: sport,
                        })
                };
            lemma_first_conn_unique(self.conns(), id, p.name@, c, c2);
            assert(!no_port(self.outputs_of(src as int), sport));
            assert(!no_buffered(self.buffer(), src, sport));
            assert forall|o: int| #[trigger] first_port(self.outputs_of(src as int), sport, o) implies self.outputs_of(
                src as int,
            )[o].ty == p.ty by {
                lemma_first_port_unique(self.outputs_of(src as int), sport, o, o2);
            }
        }
    }

    /// Input port `p` of instance `id` cannot be resolved, and `e` says why.
    pub open spec fn fails_with(&self, id: usize, p: Port, e: Error) -> bool {
        ||| no_conn(self.conns(), id, p.name@) && e == missing(id, p.name)
        ||| exists|c: int|
            #[trigger] first_conn(self.conns(), id, p.name@, c) && {
                let src = self.conns()[c].source;
                let sport = self.conns()[c].source_port;
                ||| no_port(self.outputs_of(src as int), sport@) && e == missing(src, sport)
                ||| exists|o: int|
                    #[trigger] first_port(self.outputs_of(src as int), sport@, o) && self.outputs_of(src as int)[o].ty != p.ty
                        && e == (Error::TypeMismatchError {
                        source: src,
                        source_port: sport,
                        target: id,
                        target_port: p.name,
                    })
                ||| exists|o: int|
                    #[trigger] first_port(self.outputs_of(src as int), sport@, o) && self.outputs_of(src as int)[o].ty == p.ty
                        && no_buffered(self.buffer(), src, sport@) && e == (Error::BufferMissError {
                        source: src,
                        source_port: sport,
                    })
            }
    }

    /// Some input port of instance `id` cannot be resolved, for the reason `e`.
    pub open spec fn input_fails(&self, id: usize, e: Error) -> bool {
        exists|k: int|
            0 <= k < self.inputs_of(id as int).len() && #[trigger] self.fails_with(id, self.inputs_of(id as int)[k], e)
                && self.ready_before(id, k)
    }

    /// Resolves one input port of instance `id`.
    fn resolve_port(&self, id: usize, p: &Port) -> (r: Result<Value, Error>)
        requires
            self.wf(),
            id < self.classes().len(),
        ensures
            r is Ok ==> self.resolves_to(id, *p, r->Ok_0) && self.port_ready(id, *p),
            r is Err ==> self.fails_with(id, *p, r->Err_0),
            r is Err ==> r->Err_0 is MissingConnectionError || r->Err_0 is TypeMismatchError || r->Err_0 is BufferMissError,
    {
        let c = match find_conn(&self.connections, id, &p.name) {
            Some(c) => c,
            None => {
                return Err(Error::MissingConnectionError { instance: id, port: p.name.clone() });
            },
        };
        let src = self.connections[c].source;
        let sport = &self.connections[c].source_port;
        assert(src < self.classes@.len());
        let o = match find_port(&self.outputs[src], sport) {
            Some(o) => o,
            None => {
                let e = Error::MissingConnectionError { instance: src, port: sport.clone() };
                assert(self.fails_with(id, *p, e));
                return Err(e);
            },
        };
        if self.outputs[src][o].ty != p.ty {
            let e = Error::TypeMismatchError {
                source: src,
                source_port: sport.clone(),
                target: id,
                target_port: p.name.clone(),
            };
            assert(self.fails_with(id, *p, e));
            return Err(e);
        }
        let b = match find_buffered(&self.memory_buffer, src, sport) {
            Some(b) => b,
            None => {
                let e = Error::BufferMissError { source: src, source_port: sport.clone() };
                assert(self.fails_with(id, *p, e));
                return Err(e);
            },
        };
        let v = self.memory_buffer[b].value.copy();
        assert(first_port(self.outputs_of(src as int), sport@, o as int));
        assert(first_buffered(self.buffer(), src, sport@, b as int));
        assert(first_conn(self.conns(), id, p.name@, c as int));
        assert(self.resolves_to(id, *p, v));
        assert(self.port_ready(id, *p));
        Ok(v)
    }

    /// Assembles the inputs of instance `id`, port by port in declaration
    /// order, from its connections and the buffer.
    pub fn pull_inputs(&self, id: usize) -> (r: Result<IOType, Error>)
        requires
            self.wf(),
            id < self.classes().len(),
        ensures
            r is Ok ==> {
                let ins = self.inputs_of(id as int);
                &&& r->Ok_0@.len() == ins.len()
                &&& forall|k: int|
                    0 <= k < ins.len() ==> (#[trigger] r->Ok_0@[k]).0@ == ins[k].name@ && self.resolves_to(
                        id,
                        ins[k],
                        r->Ok_0@[k].1,
                    )
            },
            r is Ok ==> self.ready_before(id, self.inputs_of(id as int).len() as int),
            r is Err ==> self.input_fails(id, r->Err_0),
            r is Err ==> !self.ready_before(id, self.inputs_of(id as int).len() as int),
            r is Err ==> r->Err_0 is MissingConnectionError || r->Err_0 is TypeMismatchError || r->Err_0 is BufferMissError,
    {
        let ins = &self.inputs[id];
        let mut vals: IOType = Vec::new();
        let mut k: usize = 0;
        while k < ins.len()
            invariant
                self.wf(),
                id < self.classes@.len(),
                ins == &self.inputs@[id as int],
                ins@ == self.inputs_of(id as int),
                k <= ins@.len(),
                vals@.len() == k,
                forall|j: int|
                    0 <= j < k ==> (#[trigger] vals@[j]).0@ == ins@[j].name@ && self.resolves_to(id, ins@[j], vals@[j].1),
                self.ready_before(id, k as int),
            decreases ins@.len() - k,
        {
            let p = &ins[k];
            match self.resolve_port(id, p) {
                Ok(v) => {
                    vals.push((p.name.clone(), v));
                    assert(self.port_ready(id, self.inputs_of(id as int)[k as int]));
                },
                Err(e) => {
                    assert(self.fails_with(id, self.inputs_of(id as int)[k as int], e));
                    assert(self.input_fails(id, e));
                    proof {
                        self.lemma_fails_not_ready(id, self.inputs_of(id as int)[k as int], e);
                    }
                    return Err(e);
                },
            }
            k = k + 1;
        }
        Ok(vals)
    }

    /// Whether the outputs are all declared by instance `id`, each once.
    fn check_outputs(&self, id: usize, outs: &IOType) -> (r: bool)
        requires
            self.wf(),
            id < self.classes().len(),
        ensures
            r == outputs_valid(self.outputs_of(id as int), outs@),
    {
        let decl = &self.outputs[id];
        let mut k: usize = 0;
        while k < outs.len()
            invariant
                decl@ == self.outputs_of(id as int),
                k <= outs@.len(),
                forall|j: int| 0 <= j < k ==> output_declared(decl@, #[trigger] outs@[j]),
                forall|j: int, l: int| 0 <= j < l < outs@.len() && j < k ==> (#[trigger] outs@[j]).0@ != (#[trigger] outs@[l]).0@,
            decreases outs@.len() - k,
        {
            match find_port(decl, &outs[k].0) {
                None => {
                    assert(!output_declared(decl@, outs@[k as int]));
                    return false;
                },
                Some(o) => {
                    if decl[o].ty != outs[k].1.value_type() {
                        proof {
                            assert forall|o2: int| #[trigger] first_port(decl@, outs@[k as int].0@, o2) implies decl@[o2].ty
                                != outs@[k as int].1.spec_type() by {
                                lemma_first_port_unique(decl@, outs@[k as int].0@, o as int, o2);
                            }
                        }
                        return false;
                    }
                },
            }
            let mut l: usize = k + 1;
            while l < outs.len()
                invariant
                    k < l <= outs@.len(),
                    forall|m: int| k < m < l ==> outs@[k as int].0@ != (#[trigger] outs@[m]).0@,
                decreases outs@.len() - l,
            {
                if outs[l].0 == outs[k].0 {
                    assert(outs@[k as int].0@ == outs@[l as int].0@);
                    return false;
                }
                l = l + 1;
            }
            k = k + 1;
        }
        true
    }

    /// Stores what an Extension produced, under its id.
    fn store_outputs(&mut self, id: usize, outs: IOType)
        requires
            old(self).wf(),
            id < old(self).classes().len(),
            old(self).ran()[id as int],
            forall|k: int| 0 <= k < old(self).buffer().len() ==> (#[trigger] old(self).buffer()[k]).source != id,
            outputs_valid(old(self).outputs_of(id as int), outs@),
        ensures
            final(self).wf(),
            final(self).classes() == old(self).classes(),
            final(self).conns() == old(self).conns(),
            final(self).steps() == old(self).steps(),
            final(self).orders() == old(self).orders(),
            final(self).ran() == old(self).ran(),
            final(self).timeline() == old(self).timeline(),
            forall|i: int| 0 <= i < old(self).classes().len() ==> final(self).inputs_of(i) == old(self).inputs_of(i),
            forall|i: int| 0 <= i < old(self).classes().len() ==> final(self).outputs_of(i) == old(self).outputs_of(i),
            final(self).buffer() == old(self).buffer() + tagged(id, outs@),
    {
        let ghost start = self.memory_buffer@;
        assert forall|j: int| 0 <= j < start.len() implies (#[trigger] start[j]).source != id by {
            assert(old(self).buffer()[j] == start[j]);
        }
        assert(self.memory_buffer@ == start + tagged(id, outs@).take(0));
        let mut k: usize = 0;
        while k < outs.len()
            invariant
                self.wf(),
                id < self.classes@.len(),
                self.executed@[id as int],
                self.classes@ == old(self).classes@,
                self.inputs@ == old(self).inputs@,
                self.outputs@ == old(self).outputs@,
                self.plugins@ == old(self).plugins@,
                self.connections@ == old(self).connections@,
                self.baseline@ == old(self).baseline@,
                self.execution_order@ == old(self).execution_order@,
                self.executed@ == old(self).executed@,
                self.current_et@ == old(self).current_et@,
                start == old(self).memory_buffer@,
                forall|j: int| 0 <= j < start.len() ==> (#[trigger] start[j]).source != id,
                outputs_valid(old(self).outputs_of(id as int), outs@),
                k <= outs@.len(),
                self.memory_buffer@ == start + tagged(id, outs@).take(k as int),
            decreases outs@.len() - k,
        {
            let (port, value) = (outs[k].0.clone(), outs[k].1.copy());
            let ghost before = self.memory_buffer@;
            let item = Produced { source: id, port, value };
            assert(item == tagged(id, outs@)[k as int]);
            self.memory_buffer.push(item);
            proof {
                assert(tagged(id, outs@).take(k + 1) =~= tagged(id, outs@).take(k as int).push(item));
                assert(self.memory_buffer@ =~= start + tagged(id, outs@).take(k + 1));
                let nb = self.memory_buffer@;
                assert forall|i: int, j: int| 0 <= i < j < nb.len() implies !((#[trigger] nb[i]).source == (#[trigger] nb[j]).source
                    && nb[i].port@ == nb[j].port@) by {
                    if j < before.len() {
                        assert(nb[i] == before[i] && nb[j] == before[j]);
                    } else if i >= start.len() {
                        let a = i - start.len();
                        assert(nb[i] == tagged(id, outs@)[a]);
                        assert(outs@[a].0@ != outs@[k as int].0@);
                    } else {
                        assert(nb[i] == start[i]);
                    }
                }
                assert forall|j: int| 0 <= j < nb.len() implies (#[trigger] nb[j]).source < self.classes@.len()
                    && self.executed@[nb[j].source as int] by {
                    if j < before.len() {
                        assert(nb[j] == before[j]);
                    }
                }
            }
            k = k + 1;
        }
        proof {
            assert(tagged(id, outs@).take(outs@.len() as int) =~= tagged(id, outs@));
        }
    }

    /// Takes what the plugin of instance `id` handed back. A Render's result
    /// is passed on; an Extension's outputs, when all declared and each
    /// given once, are buffered under its id; an App's table becomes the
    /// timeline when it passes the table's check. A plugin's failure becomes
    /// `PluginError`.
    pub fn accept_outcome(&mut self, id: usize, outcome: Outcome) -> (r: Result<(), Error>)
        requires
            old(self).wf(),
            id < old(self).classes().len(),
            old(self).ran()[id as int],
            forall|k: int| 0 <= k < old(self).buffer().len() ==> (#[trigger] old(self).buffer()[k]).source != id,
        ensures
            final(self).wf(),
            final(self).classes() == old(self).classes(),
            final(self).conns() == old(self).conns(),
            final(self).steps() == old(self).steps(),
            final(self).orders() == old(self).orders(),
            final(self).ran() == old(self).ran(),
            forall|i: int| 0 <= i < old(self).classes().len() ==> final(self).inputs_of(i) == old(self).inputs_of(i),
            forall|i: int| 0 <= i < old(self).classes().len() ==> final(self).outputs_of(i) == old(self).outputs_of(i),
            outcome_effect(
                old(self).outputs_of(id as int),
                id,
                outcome,
                old(self).buffer(),
                old(self).timeline(),
                final(self).buffer(),
                final(self).timeline(),
                r,
            ),
    {
        match outcome {
            Outcome::Rendered(res) => match res {
                Ok(()) => Ok(()),
                Err(message) => Err(Error::PluginError { instance: id, message }),
            },
            Outcome::Extended(res) => match res {
                Ok(outs) => {
                    if self.check_outputs(id, &outs) {
                        self.store_outputs(id, outs);
                        Ok(())
                    } else {
                        Err(Error::OutputError { instance: id })
                    }
                },
                Err(message) => Err(Error::PluginError { instance: id, message }),
            },
            Outcome::Applied(res) => match res {
                Ok(new_et) => match new_et.check_self() {
                    Ok(()) => {
                        self.current_et = new_et;
                        Ok(())
                    },
                    Err(_) => Err(Error::CorruptionError),
                },
                Err(message) => Err(Error::PluginError { instance: id, message }),
            },
        }
    }

    /// Runs one instance: resolves its inputs, then hands its plugin the
    /// inputs (and a copy of the timeline, for a Render or an App) and takes
    /// the outcome as `accept_outcome` says. When an input cannot be
    /// resolved, nothing runs. Whatever the plugin returns, the instance
    /// counts as run.
    pub fn execute_element(&mut self, id: usize) -> (r: Result<(), Error>)
        requires
            old(self).wf(),
        ensures
            final(self).wf(),
            final(self).classes() == old(self).classes(),
            final(self).conns() == old(self).conns(),
            final(self).steps() == old(self).steps(),
            final(self).orders() == old(self).orders(),
            r is Err ==> !(r->Err_0 is UnknownStepError) && !(r->Err_0 is CyclicDependencyError),
            id >= old(self).classes().len() ==> r is Err && r->Err_0 == (Error::UnknownInstanceError { instance: id }),
            id < old(self).classes().len() && old(self).ran()[id as int] ==> r is Err && r->Err_0
                == (Error::AlreadyExecutedError { instance: id }),
            id >= old(self).classes().len() || old(self).ran()[id as int] || !old(self).ready_before(
                id,
                old(self).inputs_of(id as int).len() as int,
            ) ==> {
                &&& final(self).ran() == old(self).ran()
                &&& final(self).buffer() == old(self).buffer()
                &&& final(self).timeline() == old(self).timeline()
            },
            id < old(self).classes().len() && !old(self).ran()[id as int] && !old(self).ready_before(
                id,
                old(self).inputs_of(id as int).len() as int,
            ) ==> r is Err && old(self).input_fails(id, r->Err_0),
            id < old(self).classes().len() && !old(self).ran()[id as int] && old(self).ready_before(
                id,
                old(self).inputs_of(id as int).len() as int,
            ) ==> {
                &&& final(self).ran() == old(self).ran().update(id as int, true)
                &&& exists|o: Outcome|
                    outcome_class(o) == old(self).classes()[id as int] && #[trigger] outcome_effect(
                        old(self).outputs_of(id as int),
                        id,
                        o,
                        old(self).buffer(),
                        old(self).timeline(),
                        final(self).buffer(),
                        final(self).timeline(),
                        r,
                    )
            },
    {
        if id >= self.classes.len() {
            return Err(Error::UnknownInstanceError { instance: id });
        }
        if self.executed[id] {
            return Err(Error::AlreadyExecutedError { instance: id });
        }
        let inputs = match self.pull_inputs(id) {
            Ok(v) => v,
            Err(e) => {
                return Err(e);
            },
        };
        let ghost old_buf = self.memory_buffer@;
        let ghost old_tl = self.current_et@;
        let ghost decl = self.outputs@[id as int]@;
        let et = self.current_et.snapshot();
        self.executed.set(id, true);
        proof {
            assert forall|k: int| 0 <= k < self.memory_buffer@.len() implies (#[trigger] self.memory_buffer@[k]).source
                < self.classes@.len() && self.executed@[self.memory_buffer@[k].source as int] by {
                assert(old(self).executed@[self.memory_buffer@[k].source as int]);
            }
            assert forall|k: int| 0 <= k < self.buffer().len() implies (#[trigger] self.buffer()[k]).source != id by {
                assert(old(self).executed@[self.memory_buffer@[k].source as int]);
            }
        }
        let outcome = match &self.plugins[id] {
            R_E_A::Render(p) => Outcome::Rendered(p.run(et, inputs)),
            R_E_A::Extension(p) => Outcome::Extended(p.run(inputs)),
            R_E_A::App(p) => Outcome::Applied(p.run(et, inputs)),
        };
        let ghost o = outcome;
        assert(outcome_class(o) == self.classes@[id as int]);
        let ghost ran_mid = self.executed@;
        let r = self.accept_outcome(id, outcome);
        proof {
            assert(ran_mid == old(self).ran().update(id as int, true));
            assert(self.ran() == ran_mid);
            assert(decl == old(self).outputs_of(id as int));
            assert(old_buf == old(self).buffer());
            assert(old_tl == old(self).timeline());
            assert(outcome_effect(
                old(self).outputs_of(id as int),
                id,
                o,
                old(self).buffer(),
                old(self).timeline(),
                self.buffer(),
                self.timeline(),
                r,
            ));
        }
        r
    }

    /// Runs baseline steps `0..=index` as one run: the execution order is
    /// computed afresh, the buffer and the record of what ran are cleared,
    /// then each step's order runs in turn. The first failure ends the run;
    /// what earlier instances did to the timeline stays.
    pub fn run_baseline_until(&mut self, index: usize) -> (r: Result<(), Error>)
        requires
            old(self).wf(),
        ensures
            final(self).wf(),
            final(self).classes() == old(self).classes(),
            final(self).conns() == old(self).conns(),
            final(self).steps() == old(self).steps(),
            index >= old(self).steps().len() ==> r is Err && r->Err_0 == (Error::UnknownStepError { step: index }),
            r is Err && r->Err_0 is UnknownStepError ==> index >= old(self).steps().len(),
            r is Err && !(r->Err_0 is UnknownStepError) && !(r->Err_0 is CyclicDependencyError) ==> {
                &&& orders_valid(final(self).classes(), final(self).conns(), final(self).steps(), final(self).orders())
                &&& exists|s: int, q: int|
                    0 <= s <= index && 0 <= q < final(self).orders()[s].len() && #[trigger] ran_through(
                        final(self).ran(),
                        final(self).orders(),
                        s,
                        q,
                    )
            },
            r is Err && (r->Err_0 is UnknownStepError || r->Err_0 is CyclicDependencyError) ==> {
                &&& final(self).ran() == old(self).ran()
                &&& final(self).buffer() == old(self).buffer()
                &&& final(self).timeline() == old(self).timeline()
                &&& final(self).orders() == old(self).orders()
            },
            r is Err && r->Err_0 is CyclicDependencyError ==> exists|done: Seq<bool>|
                stuck(final(self).conns(), done, r->Err_0->nodes@),
            r is Ok ==> index < final(self).steps().len(),
            r is Ok ==> orders_valid(final(self).classes(), final(self).conns(), final(self).steps(), final(self).orders()),
            r is Ok ==> forall|j: int, p: int|
                0 <= j <= index && 0 <= p < final(self).orders()[j].len() ==> final(self).ran()[#[trigger] final(self).orders()[j][p] as int],
    {
        if index >= self.baseline.len() {
            return Err(Error::UnknownStepError { step: index });
        }
        match self.generate_order_of_processing() {
            Ok(()) => {},
            Err(e) => {
                return Err(e);
            },
        }
        let n = self.classes.len();
        let mut fresh: Vec<bool> = Vec::new();
        let mut i: usize = 0;
        while i < n
            invariant
                n == self.classes@.len(),
                i <= n,
                fresh@.len() == i,
                forall|k: int| 0 <= k < i ==> !fresh@[k],
            decreases n - i,
        {
            fresh.push(false);
            i = i + 1;
        }
        self.executed = fresh;
        self.memory_buffer = Vec::new();
        let ghost orders = self.orders();
        proof {
            lemma_orders_in_range(self.classes(), self.conns(), self.steps(), orders);
        }
        let end = index + 1;
        let mut step: usize = 0;
        while step < end
            invariant
                end == index + 1,
                forall|j: int, q: int| 0 <= j < orders.len() && 0 <= q < orders[j].len() ==> #[trigger] orders[j][q] < self.classes().len(),
                self.wf(),
                index < self.baseline@.len(),
                step <= index + 1,
                self.classes() == old(self).classes(),
                self.conns() == old(self).conns(),
                self.steps() == old(self).steps(),
                self.orders() == orders,
                orders_valid(self.classes(), self.conns(), self.steps(), orders),
                forall|j: int, p: int|
                    0 <= j < step && 0 <= p < orders[j].len() ==> self.ran()[#[trigger] orders[j][p] as int],
            decreases index + 1 - step,
        {
            assert(orders[step as int] == self.execution_order@[step as int]@);
            let len = self.execution_order[step].len();
            let mut p: usize = 0;
            while p < len
                invariant
                    self.wf(),
                    index < self.baseline@.len(),
                    step <= index,
                    self.classes() == old(self).classes(),
                    self.conns() == old(self).conns(),
                    self.steps() == old(self).steps(),
                    self.orders() == orders,
                    len == orders[step as int].len(),
                    forall|j: int, q: int| 0 <= j < orders.len() && 0 <= q < orders[j].len() ==> #[trigger] orders[j][q] < self.classes().len(),
                    p <= len,
                    orders_valid(self.classes(), self.conns(), self.steps(), orders),
                    forall|j: int, q: int|
                        0 <= j < step && 0 <= q < orders[j].len() ==> self.ran()[#[trigger] orders[j][q] as int],
                    forall|q: int| 0 <= q < p ==> self.ran()[#[trigger] orders[step as int][q] as int],
                decreases len - p,
            {
                assert(orders[step as int] == self.execution_order@[step as int]@);
                let id = self.execution_order[step][p];
                let ghost before = self.ran();
                match self.execute_element(id) {
                    Ok(()) => {},
                    Err(e) => {
                        proof {
                            assert(ran_through(self.ran(), orders, step as int, p as int)) by {
                                assert forall|j: int, q: int| 0 <= j < step && 0 <= q < orders[j].len() implies self.ran()[#[trigger] orders[j][q] as int] by {
                                    assert(before[orders[j][q] as int]);
                                }
                                assert forall|q: int| 0 <= q < p implies self.ran()[#[trigger] orders[step as int][q] as int] by {
                                    assert(before[orders[step as int][q] as int]);
                                }
                            }
                        }
                        return Err(e);
                    },
                }
                proof {
                    assert(self.ran() == before.update(id as int, true));
                    assert forall|j: int, q: int|
                        0 <= j < step && 0 <= q < orders[j].len() implies self.ran()[#[trigger] orders[j][q] as int] by {
                        assert(before[orders[j][q] as int]);
                    }
                    assert forall|q: int| 0 <= q < p + 1 implies self.ran()[#[trigger] orders[step as int][q] as int] by {
                        if q < p {
                            assert(before[orders[step as int][q] as int]);
                        }
                    }
                }
                p = p + 1;
            }
            step = step + 1;
        }
        Ok(())
    }

    /// Runs the whole baseline as one run. An empty baseline has nothing to
    /// run.
    pub fn run_full(&mut self) -> (r: Result<(), Error>)
        requires
            old(self).wf(),
        ensures
            final(self).wf(),
            final(self).classes() == old(self).classes(),
            final(self).conns() == old(self).conns(),
            final(self).steps() == old(self).steps(),
            old(self).steps().len() == 0 ==> r is Ok && final(self).ran() == old(self).ran() && final(self).timeline()
                == old(self).timeline(),
            !(r is Err && r->Err_0 is UnknownStepError),
            r is Err && !(r->Err_0 is CyclicDependencyError) ==> {
                &&& orders_valid(final(self).classes(), final(self).conns(), final(self).steps(), final(self).orders())
                &&& exists|s: int, q: int|
                    0 <= s < final(self).steps().len() && 0 <= q < final(self).orders()[s].len() && #[trigger] ran_through(
                        final(self).ran(),
                        final(self).orders(),
                        s,
                        q,
                    )
            },
            r is Err && r->Err_0 is CyclicDependencyError ==> {
                &&& final(self).ran() == old(self).ran()
                &&& final(self).buffer() == old(self).buffer()
                &&& final(self).timeline() == old(self).timeline()
                &&& exists|done: Seq<bool>| stuck(final(self).conns(), done, r->Err_0->nodes@)
            },
            r is Ok && old(self).steps().len() > 0 ==> orders_valid(
                final(self).classes(),
                final(self).conns(),
                final(self).steps(),
                final(self).orders(),
            ),
            r is Ok ==> forall|j: int, p: int|
                0 <= j < final(self).steps().len() && 0 <= p < final(self).orders()[j].len()
                    ==> final(self).ran()[#[trigger] final(self).orders()[j][p] as int],
    {
        let len = self.baseline.len();
        if len == 0 {
            return Ok(());
        }
        self.run_baseline_until(len - 1)
    }

    /// The current timeline.
    pub fn current_timeline(&self) -> (r: &EventTable)
        requires
            self.wf(),
        ensures
            r@ == self.timeline(),
            r.wf(),
    {
        &self.current_et
    }

    /// The execution order of each baseline step, as last computed.
    pub fn execution_order(&self) -> (r: &Vec<Vec<usize>>)
        ensures
            order_views(r@) == self.orders(),
    {
        &self.execution_order
    }

    /// The value that instance `source` produced on `port` in this run.
    pub fn buffered(&self, source: usize, port: &String) -> (r: Option<Value>)
        ensures
            r is None <==> no_buffered(self.buffer(), source, port@),
            r is Some ==> exists|b: int| first_buffered(self.buffer(), source, port@, b) && self.buffer()[b].value == r->0,
    {
        match find_buffered(&self.memory_buffer, source, port) {
            Some(b) => Some(self.memory_buffer[b].value.copy()),
            None => None,
        }
    }

    /// Whether instance `id` has run in this run.
    pub fn has_run(&self, id: usize) -> (r: bool)
        requires
            self.wf(),
            id < self.classes().len(),
        ensures
            r == self.ran()[id as int],
    {
        self.executed[id]
    }

    /// The pipeline's topology, for storage.
    pub fn export(&self) -> (r: Topology)
        requires
            self.wf(),
        ensures
            r.check_classes == self.checks_classes(),
            r.names@.len() == self.classes().len(),
            r.classes@ == self.classes(),
            r.connections@ == self.conns(),
            same_steps(r.baseline@, self.steps()),
    {
        let mut names: Vec<String> = Vec::new();
        let mut k: usize = 0;
        while k < self.plugins.len()
            invariant
                self.wf(),
                k <= self.plugins@.len(),
                names@.len() == k,
            decreases self.plugins@.len() - k,
        {
            names.push(self.plugins[k].get_name());
            k = k + 1;
        }
        let mut connections: Vec<Connection> = Vec::new();
        let mut c: usize = 0;
        while c < self.connections.len()
            invariant
                c <= self.connections@.len(),
                connections@ == self.connections@.take(c as int),
            decreases self.connections@.len() - c,
        {
            connections.push(copy_connection(&self.connections[c]));
            assert(self.connections@.take(c + 1) == self.connections@.take(c as int).push(self.connections@[c as int]));
            c = c + 1;
        }
        assert(self.connections@.take(self.connections@.len() as int) == self.connections@);
        let mut baseline: Vec<Step> = Vec::new();
        let mut b: usize = 0;
        while b < self.baseline.len()
            invariant
                b <= self.baseline@.len(),
                same_steps(baseline@, self.baseline@.take(b as int)),
            decreases self.baseline@.len() - b,
        {
            baseline.push(copy_step(&self.baseline[b]));
            b = b + 1;
        }
        let mut classes: Vec<R_E_AClass> = Vec::new();
        let mut i: usize = 0;
        while i < self.classes.len()
            invariant
                i <= self.classes@.len(),
                classes@ == self.classes@.take(i as int),
            decreases self.classes@.len() - i,
        {
            classes.push(self.classes[i]);
            assert(self.classes@.take(i + 1) == self.classes@.take(i as int).push(self.classes@[i as int]));
            i = i + 1;
        }
        assert(self.classes@.take(self.classes@.len() as int) == self.classes@);
        Topology { check_classes: self.check_classes, names, classes, connections, baseline }
    }

    /// Rebuilds a pipeline over `et` from a stored topology and the plugins,
    /// given in id order. Each plugin must carry the stored name and class
    /// (else `TopologyMismatchError`), and each connection and step is
    /// checked as `connect` and `add_step` check them. On any failure no
    /// pipeline is returned.
    pub fn import(plugins: Vec<R_E_A<R, E, A>>, topology: &Topology, et: EventTable) -> (r: Result<Self, Error>)
        requires
            et.wf(),
        ensures
            plugins@.len() != topology.classes@.len() || plugins@.len() != topology.names@.len() ==> r is Err
                && r->Err_0 == (Error::TopologyMismatchError { instance: plugins@.len() as usize }),
            (exists|k: int|
                0 <= k < plugins@.len() && k < topology.classes@.len() && (#[trigger] plugins@[k]).spec_class()
                    != topology.classes@[k]) ==> r is Err && r->Err_0 is TopologyMismatchError,
            plugins@.len() == 0 && topology.classes@.len() == 0 && topology.names@.len() == 0
                && topology.connections@.len() == 0 && topology.baseline@.len() == 0 ==> r is Ok,
            r is Err ==> r->Err_0 is TopologyMismatchError || r->Err_0 is UnknownInstanceError
                || r->Err_0 is MissingConnectionError || r->Err_0 is TypeMismatchError || r->Err_0 is ClassMismatchError,
            r is Ok ==> forall|k: int|
                0 <= k < topology.baseline@.len() ==> step_allowed(
                    topology.classes@,
                    topology.check_classes,
                    #[trigger] topology.baseline@[k],
                ),
            r is Ok ==> {
                let p = r->Ok_0;
                &&& p.wf()
                &&& p.checks_classes() == topology.check_classes
                &&& p.classes() == topology.classes@
                &&& p.conns() == topology.connections@
                &&& same_steps(p.steps(), topology.baseline@)
                &&& p.timeline() == et@
            },
    {
        let ghost given = plugins@;
        let n = plugins.len();
        if n != topology.classes.len() || n != topology.names.len() {
            return Err(Error::TopologyMismatchError { instance: n });
        }
        let mut names: Vec<String> = Vec::new();
        let mut k: usize = 0;
        while k < n
            invariant
                n == plugins@.len(),
                n == topology.classes@.len(),
                n == topology.names@.len(),
                k <= n,
                names@.len() == k,
                forall|j: int| 0 <= j < k ==> (#[trigger] plugins@[j]).spec_class() == topology.classes@[j],
            decreases n - k,
        {
            if plugins[k].get_class() != topology.classes[k] {
                return Err(Error::TopologyMismatchError { instance: k });
            }
            names.push(plugins[k].get_name());
            k = k + 1;
        }
        if let Some(k) = first_name_mismatch(&names, &topology.names) {
            return Err(Error::TopologyMismatchError { instance: k });
        }
        let mut p = Pipeline::new(topology.check_classes, et);
        let mut rest = plugins;
        let ghost all = rest@;
        let mut k: usize = 0;
        while k < n
            invariant
                p.wf(),
                n == topology.classes@.len(),
                n == topology.names@.len(),
                n == all.len(),
                k <= n,
                rest@ == all.skip(k as int),
                p.classes() == topology.classes@.take(k as int),
                p.conns().len() == 0,
                p.steps().len() == 0,
                p.checks_classes() == topology.check_classes,
                p.timeline() == et@,
                forall|j: int| 0 <= j < n ==> (#[trigger] all[j]).spec_class() == topology.classes@[j],
                given == all,
                given == plugins@,
            decreases n - k,
        {
            let plugin = rest.remove(0);
            assert(plugin == all[k as int]);
            assert(all.skip(k + 1) =~= all.skip(k as int).drop_first());
            p.register(plugin);
            assert(topology.classes@.take(k + 1) == topology.classes@.take(k as int).push(topology.classes@[k as int]));
            k = k + 1;
        }
        assert(topology.classes@.take(n as int) == topology.classes@);
        let mut c: usize = 0;
        while c < topology.connections.len()
            invariant
                p.wf(),
                n == all.len(),
                n == topology.classes@.len(),
                n == topology.names@.len(),
                forall|j: int| 0 <= j < n ==> (#[trigger] all[j]).spec_class() == topology.classes@[j],
                given == all,
                given == plugins@,
                p.classes() == topology.classes@,
                c <= topology.connections@.len(),
                p.conns() == topology.connections@.take(c as int),
                p.steps().len() == 0,
                p.checks_classes() == topology.check_classes,
                p.timeline() == et@,
            decreases topology.connections@.len() - c,
        {
            let con = copy_connection(&topology.connections[c]);
            match p.connect(con.source, con.source_port, con.target, con.target_port) {
                Ok(()) => {},
                Err(e) => {
                    return Err(e);
                },
            }
            assert(topology.connections@.take(c + 1) == topology.connections@.take(c as int).push(
                topology.connections@[c as int],
            ));
            c = c + 1;
        }
        assert(topology.connections@.take(topology.connections@.len() as int) == topology.connections@);
        let mut b: usize = 0;
        while b < topology.baseline.len()
            invariant
                p.wf(),
                n == all.len(),
                n == topology.classes@.len(),
                n == topology.names@.len(),
                forall|j: int| 0 <= j < n ==> (#[trigger] all[j]).spec_class() == topology.classes@[j],
                given == all,
                given == plugins@,
                p.classes() == topology.classes@,
                p.conns() == topology.connections@,
                b <= topology.baseline@.len(),
                same_steps(p.steps(), topology.baseline@.take(b as int)),
                forall|j: int| 0 <= j < b ==> step_allowed(topology.classes@, topology.check_classes, #[trigger] topology.baseline@[j]),
                p.checks_classes() == topology.check_classes,
                p.timeline() == et@,
            decreases topology.baseline@.len() - b,
        {
            let st = copy_step(&topology.baseline[b]);
            match p.add_step(st.app, st.renders) {
                Ok(()) => {
                    proof {
                        let tb = topology.baseline@[b as int];
                        assert(st.renders@ == tb.renders@);
                        assert(step_allowed(topology.classes@, topology.check_classes, tb));
                    }
                },
                Err(e) => {
                    return Err(e);
                },
            }
            b = b + 1;
        }
        Ok(p)
    }
}

} // verus!
