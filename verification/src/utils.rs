//! Texts and file names that go with a search.

use vstd::prelude::*;
use vstd::string::StringExecFns;
use crate::text::{decimal, push_decimal};

verus! {

/// A text and the name of the file that is to hold it.
#[derive(Debug)]
pub struct Artifact {
    pub name: String,
    pub content: String,
}

/// `seconds` as hours, minutes and seconds, each as a decimal numeral.
pub open spec fn time_text(seconds: u64) -> Seq<char> {
    decimal((seconds / 3600) as nat) + seq![':'] + decimal(((seconds / 60) % 60) as nat) + seq![
        ':',
    ] + decimal((seconds % 60) as nat) + " (hh:mm:ss)"@
}

/// A span of `seconds` as hours, minutes and seconds.
pub fn get_time(seconds: u64) -> (time: String)
    ensures
        time@ == time_text(seconds),
{
    proof {
        reveal_strlit(":");
    }
    let mut time = String::new();
    let all_minutes: u64 = seconds / 60;
    let hours: u64 = all_minutes / 60;
    let minutes: u64 = all_minutes % 60;
    let rest: u64 = seconds % 60;
    push_decimal(&mut time, hours);
    time.append(":");
    push_decimal(&mut time, minutes);
    time.append(":");
    push_decimal(&mut time, rest);
    time.append(" (hh:mm:ss)");
    assert(time@ =~= time_text(seconds));
    time
}

/// The directory of iteration `iteration`, with the slash after it.
pub open spec fn iteration_dir(iteration: u32) -> Seq<char> {
    "it-"@ + decimal(iteration as nat) + seq!['/']
}

/// The name of the chart of the current state of `metaheuristic` at
/// `iteration`, with `ending` after it.
pub open spec fn current_name(iteration: u32, metaheuristic: Seq<char>, ending: Seq<char>) -> Seq<
    char,
> {
    iteration_dir(iteration) + metaheuristic + "-curr-it-"@ + decimal(iteration as nat) + ending
}

/// The name of the chart of the `n`-th neighbour, counted from 0, at
/// `iteration`, with `ending` after it.
pub open spec fn neighbor_name(iteration: u32, n: u32, ending: Seq<char>) -> Seq<char> {
    iteration_dir(iteration) + "it-"@ + decimal(iteration as nat) + "-neig-"@ + decimal(
        (n + 1) as nat,
    ) + ending
}

fn current_file(iteration: u32, metaheuristic: &String, ending: &str) -> (r: String)
    ensures
        r@ == current_name(iteration, metaheuristic@, ending@),
{
    proof {
        reveal_strlit("/");
    }
    let mut name = String::from_str("it-");
    push_decimal(&mut name, iteration as u64);
    name.append("/");
    name.append(metaheuristic.as_str());
    name.append("-curr-it-");
    push_decimal(&mut name, iteration as u64);
    name.append(ending);
    assert(name@ =~= current_name(iteration, metaheuristic@, ending@));
    name
}

fn neighbor_file(iteration: u32, n: u32, ending: &str) -> (r: String)
    ensures
        r@ == neighbor_name(iteration, n, ending@),
{
    proof {
        reveal_strlit("/");
    }
    let mut name = String::from_str("it-");
    push_decimal(&mut name, iteration as u64);
    name.append("/");
    name.append("it-");
    push_decimal(&mut name, iteration as u64);
    name.append("-neig-");
    push_decimal(&mut name, n as u64 + 1);
    name.append(ending);
    assert(name@ =~= neighbor_name(iteration, n, ending@));
    name
}

/// The two files that record the current state of `metaheuristic` at
/// `iteration`: the chart of the schedule and the chart of the state, each
/// under its name in the directory of the iteration.
pub fn write_current(iteration: u32, planning: String, state: String, metaheuristic: String) -> (r: (
    Artifact,
    Artifact,
))
    ensures
        r.0.name@ == current_name(iteration, metaheuristic@, ".svg"@),
        r.0.content == planning,
        r.1.name@ == current_name(iteration, metaheuristic@, "-state.svg"@),
        r.1.content == state,
{
    let first = Artifact { name: current_file(iteration, &metaheuristic, ".svg"), content: planning };
    let second = Artifact {
        name: current_file(iteration, &metaheuristic, "-state.svg"),
        content: state,
    };
    (first, second)
}

/// The two files that record the `n`-th neighbour, counted from 0, looked
/// at in `iteration`: the chart of the schedule and the chart of the state.
pub fn write_neighbor(iteration: u32, n: u32, planning: String, state: String) -> (r: (
    Artifact,
    Artifact,
))
    ensures
        r.0.name@ == neighbor_name(iteration, n, ".svg"@),
        r.0.content == planning,
        r.1.name@ == neighbor_name(iteration, n, "-state.svg"@),
        r.1.content == state,
{
    let first = Artifact { name: neighbor_file(iteration, n, ".svg"), content: planning };
    let second = Artifact { name: neighbor_file(iteration, n, "-state.svg"), content: state };
    (first, second)
}

/// What the log says of an instance.
pub open spec fn random_log_text(
    random_seed: u64,
    random_cost: u32,
    random_activities: u32,
    random_resources: u32,
    random_resources_max_capacity: u32,
    initial_cost: u32,
) -> Seq<char> {
    "\n Datos del ejemplar: \n"@ + "  Semilla: "@ + decimal(random_seed as nat) + ", "@
        + "Costo optimo: "@ + decimal(random_cost as nat) + ", "@ + "Actividades: "@ + decimal(
        random_activities as nat,
    ) + ", "@ + "Recursos: "@ + decimal(random_resources as nat) + ", "@
        + "Unidades de recursos: "@ + decimal(random_resources_max_capacity as nat) + ", "@
        + "Costo inicial: "@ + decimal(initial_cost as nat)
}

/// The entry of the log for an instance: its seed, the length of its known
/// schedule, its sizes, and the cost of its first schedule.
pub fn write_log_random(
    random_seed: u64,
    random_cost: u32,
    random_activities: u32,
    random_resources: u32,
    random_resources_max_capacity: u32,
    initial_cost: u32,
) -> (content: String)
    ensures
        content@ == random_log_text(
            random_seed,
            random_cost,
            random_activities,
            random_resources,
            random_resources_max_capacity,
            initial_cost,
        ),
{
    let mut content = String::new();
    content.append("\n Datos del ejemplar: \n");
    content.append("  Semilla: ");
    push_decimal(&mut content, random_seed);
    content.append(", ");
    content.append("Costo optimo: ");
    push_decimal(&mut content, random_cost as u64);
    content.append(", ");
    content.append("Actividades: ");
    push_decimal(&mut content, random_activities as u64);
    content.append(", ");
    content.append("Recursos: ");
    push_decimal(&mut content, random_resources as u64);
    content.append(", ");
    content.append("Unidades de recursos: ");
    push_decimal(&mut content, random_resources_max_capacity as u64);
    content.append(", ");
    content.append("Costo inicial: ");
    push_decimal(&mut content, initial_cost as u64);
    assert(content@ =~= random_log_text(
        random_seed,
        random_cost,
        random_activities,
        random_resources,
        random_resources_max_capacity,
        initial_cost,
    ));
    content
}

/// How an entry of the log for a search begins: the state found, the name
/// of the search, the cost, the seed, whether activities could be
/// interrupted, and the time taken.
pub open spec fn search_log_head(
    state: Seq<char>,
    metaheuristic: Seq<char>,
    cost: u32,
    seed: u64,
    m: u32,
    time: Seq<char>,
) -> Seq<char> {
    "\n >>>>>>>>>>> Ejemplar: \n"@ + state + "\n "@ + "Metaheuristica: "@ + metaheuristic + ", "@
        + "Costo: "@ + decimal(cost as nat) + ", "@ + "Semilla: "@ + decimal(seed as nat) + ", "@
        + "Interrupciones: "@ + decimal(m as nat) + ", "@ + "Tiempo: "@ + time + ", "@
}

/// The beginning of an entry of the log for a search.
pub fn log_head(
    state: &String,
    metaheuristic: &str,
    cost: u32,
    seed: u64,
    m: u32,
    time: &String,
) -> (content: String)
    ensures
        content@ == search_log_head(state@, metaheuristic@, cost, seed, m, time@),
{
    let mut content = String::new();
    content.append("\n >>>>>>>>>>> Ejemplar: \n");
    content.append(state.as_str());
    content.append("\n ");
    content.append("Metaheuristica: ");
    content.append(metaheuristic);
    content.append(", ");
    content.append("Costo: ");
    push_decimal(&mut content, cost as u64);
    content.append(", ");
    content.append("Semilla: ");
    push_decimal(&mut content, seed);
    content.append(", ");
    content.append("Interrupciones: ");
    push_decimal(&mut content, m as u64);
    content.append(", ");
    content.append("Tiempo: ");
    content.append(time.as_str());
    content.append(", ");
    assert(content@ =~= search_log_head(state@, metaheuristic@, cost, seed, m, time@));
    content
}

/// What the log says of a tabu search.
pub open spec fn ts_log_text(
    state: Seq<char>,
    cost: u32,
    tabu_time: u32,
    neighbors: u32,
    iterations: u32,
    seed: u64,
    time: Seq<char>,
    m: u32,
) -> Seq<char> {
    search_log_head(state, "Busqueda Tabu"@, cost, seed, m, time) + "Tiempo tabu: "@ + decimal(
        tabu_time as nat,
    ) + ", "@ + "Vecinos: "@ + decimal(neighbors as nat) + ", "@ + "Iteraciones: "@ + decimal(
        iterations as nat,
    )
}

/// The entry of the log for a tabu search and the history of its costs:
/// the state found and its cost, the seed, whether activities could be
/// interrupted, the time taken and the parameters of the search.
pub fn write_log_ts(
    state: String,
    cost: u32,
    tabu_time: u32,
    neighbors: u32,
    iterations: u32,
    seed: u64,
    log: Vec<String>,
    time: String,
    m: u32,
) -> (r: (String, String))
    ensures
        r.0@ == ts_log_text(state@, cost, tabu_time, neighbors, iterations, seed, time@, m),
        r.1@ == history_text(log@, log@.len() as int),
{
    let mut content = log_head(&state, "Busqueda Tabu", cost, seed, m, &time);
    content.append("Tiempo tabu: ");
    push_decimal(&mut content, tabu_time as u64);
    content.append(", ");
    content.append("Vecinos: ");
    push_decimal(&mut content, neighbors as u64);
    content.append(", ");
    content.append("Iteraciones: ");
    push_decimal(&mut content, iterations as u64);
    assert(content@ =~= ts_log_text(
        state@,
        cost,
        tabu_time,
        neighbors,
        iterations,
        seed,
        time@,
        m,
    ));
    (content, get_log(log))
}

/// The first `k` costs of `log` as points: each on a line of its own after
/// its place on the axis, which moves on by 20 from one to the next.
pub open spec fn history_text(log: Seq<String>, k: int) -> Seq<char>
    decreases k,
{
    if k <= 0 {
        Seq::empty()
    } else {
        history_text(log, k - 1) + decimal(((k - 1) * 20) as nat) + seq![' '] + log[k - 1]@ + seq![
            '\n',
        ]
    }
}

/// The history of the costs of a search as the text of a file of points.
pub fn get_log(log: Vec<String>) -> (content: String)
    ensures
        content@ == history_text(log@, log@.len() as int),
{
    let mut content = String::new();
    let mut pos: u128 = 0;
    let mut i: usize = 0;
    assert(content@ =~= history_text(log@, 0));
    while i < log.len()
        invariant
            i <= log.len(),
            pos == i * 20,
            content@ == history_text(log@, i as int),
        decreases log.len() - i,
    {
        proof {
            reveal_strlit(" ");
            reveal_strlit("\n");
        }
        push_wide(&mut content, pos);
        content.append(" ");
        content.append(log[i].as_str());
        content.append("\n");
        assert(content@ =~= history_text(log@, i + 1));
        pos += 20;
        i += 1;
    }
    content
}

/// Writes the decimal numeral of `n` at the end of `out`.
fn push_wide(out: &mut String, n: u128)
    ensures
        final(out)@ == old(out)@ + decimal(n as nat),
    decreases n,
{
    if n >= 10 {
        push_wide(out, n / 10);
        push_decimal(out, (n % 10) as u64);
        assert(decimal((n % 10) as nat) =~= seq![crate::text::digit((n % 10) as int)]);
        assert(out@ =~= old(out)@ + decimal(n as nat));
    } else {
        push_decimal(out, n as u64);
    }
}

/// What the log says of a simulated annealing, the temperature, its
/// threshold and its decrement being given as text.
pub open spec fn sa_log_text(
    state: Seq<char>,
    cost: u32,
    iterations: u32,
    temperature: Seq<char>,
    epsilon: Seq<char>,
    decrement: Seq<char>,
    seed: u64,
    time: Seq<char>,
    m: u32,
) -> Seq<char> {
    search_log_head(state, "Recocido Simulado"@, cost, seed, m, time) + "Iteraciones: "@ + decimal(
        iterations as nat,
    ) + ", "@ + "Temperatura: "@ + temperature + ", "@ + "Epsilon: "@ + epsilon + ", "@
        + "Decremento: "@ + decrement
}

/// The entry of the log for a simulated annealing and the history of its
/// costs: the state found and its cost, the seed, whether activities could
/// be interrupted, the time taken and the parameters of the search, of
/// which the temperature, its threshold and its decrement come as text.
pub fn write_log_sa(
    state: String,
    cost: u32,
    iterations: u32,
    temperature: String,
    epsilon: String,
    decrement: String,
    seed: u64,
    log: Vec<String>,
    time: String,
    m: u32,
) -> (r: (String, String))
    ensures
        r.0@ == sa_log_text(
            state@,
            cost,
            iterations,
            temperature@,
            epsilon@,
            decrement@,
            seed,
            time@,
            m,
        ),
        r.1@ == history_text(log@, log@.len() as int),
{
    let mut content = log_head(&state, "Recocido Simulado", cost, seed, m, &time);
    content.append("Iteraciones: ");
    push_decimal(&mut content, iterations as u64);
    content.append(", ");
    content.append("Temperatura: ");
    content.append(temperature.as_str());
    content.append(", ");
    content.append("Epsilon: ");
    content.append(epsilon.as_str());
    content.append(", ");
    content.append("Decremento: ");
    content.append(decrement.as_str());
    assert(content@ =~= sa_log_text(
        state@,
        cost,
        iterations,
        temperature@,
        epsilon@,
        decrement@,
        seed,
        time@,
        m,
    ));
    (content, get_log(log))
}

} // verus!
