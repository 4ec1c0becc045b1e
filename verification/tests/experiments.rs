use dslab::experiments::{
    chunk_bounds, collected_graph_files, dag_format, file_name, generated_graph_files, graph_params, is_direct_graph,
    job_name, job_name_without_extension, order_changes, reversed_graph_path, scheduler_kind, DagFormat,
    ExperimentTool, SchedulerKind,
};
use dslab::ils::{all_resources_known, capacity_matrix, host_table, resource_names, resource_position};
use dslab::text::split_fields;

fn b(s: &str) -> Vec<u8> {
    s.as_bytes().to_vec()
}

#[test]
fn split_fields_like_str_split() {
    for (s, sep) in [("a,b,,c", ','), ("", ','), (",", ','), ("abc", ','), ("a\nb\n", '\n')] {
        let expected: Vec<Vec<u8>> = s.split(sep).map(|p| p.as_bytes().to_vec()).collect();
        assert_eq!(split_fields(s.as_bytes(), sep as u8), expected);
    }
}

#[test]
fn file_and_job_names() {
    assert_eq!(file_name(b"graphs/set1/montage.v2.yaml"), b("montage.v2.yaml"));
    assert_eq!(file_name(b"plain"), b("plain"));
    assert_eq!(file_name(b"dir/"), b(""));
    assert_eq!(job_name(b"graphs/set1/montage.v2.yaml"), b("montage"));
    assert_eq!(job_name(b"noext"), b("noext"));
    assert_eq!(job_name_without_extension(b"out/graph_20.dot"), b("graph_20"));
}

#[test]
fn graph_params_from_file_name() {
    let p = graph_params(b"dots/graph_20_0.2_0.5_0.8_2_x_y_4.dot");
    let expected: Vec<Vec<u8>> =
        ["graph", "20", "0.2", "0.5", "0.8", "2", "x", "y", "4.dot"].iter().map(|s| b(s)).collect();
    assert_eq!(p, expected);
}

#[test]
fn direct_and_reversed_graphs() {
    assert!(is_direct_graph(b"a/job.yaml"));
    assert!(!is_direct_graph(b"a/job.rev.yaml"));
    assert!(!is_direct_graph(b"a/job.dot"));
    assert_eq!(reversed_graph_path(b"a/job.yaml"), b("a/job.rev.yaml"));
}

#[test]
fn dag_formats() {
    assert_eq!(dag_format(b"x.yaml"), DagFormat::Yaml);
    assert_eq!(dag_format(b"x.dot"), DagFormat::Dot);
    assert_eq!(dag_format(b"x.json"), DagFormat::WfCommons);
}

#[test]
fn scheduler_kinds() {
    for tool in [ExperimentTool::ReverseComparison, ExperimentTool::CoefficientSearch, ExperimentTool::OrderExperiments] {
        assert_eq!(scheduler_kind(tool, &"heft".to_string()), Some(SchedulerKind::Heft));
        assert_eq!(scheduler_kind(tool, &"simple-with-data".to_string()), Some(SchedulerKind::SimpleWithData));
        assert_eq!(scheduler_kind(tool, &"dls_art".to_string()), Some(SchedulerKind::DlsArt));
        assert_eq!(scheduler_kind(tool, &"HEFT".to_string()), None);
    }
}

#[test]
fn heft_oct_only_in_order_experiments() {
    assert_eq!(scheduler_kind(ExperimentTool::OrderExperiments, &"heft_oct".to_string()), Some(SchedulerKind::HeftOct));
    assert_eq!(scheduler_kind(ExperimentTool::ReverseComparison, &"heft_oct".to_string()), None);
    assert_eq!(scheduler_kind(ExperimentTool::CoefficientSearch, &"heft_oct".to_string()), None);
}

#[test]
fn generator_output_lists_second_fields() {
    let out = b"generated traces1/g_0.yaml ok\nnothing\n\nsaved a/b.dot\n";
    assert_eq!(generated_graph_files(out), vec![b("traces1/g_0.yaml"), b("a/b.dot")]);
    assert_eq!(generated_graph_files(b"x  y"), vec![b("")]);
}

#[test]
fn generator_failure_lists_nothing() {
    let out = b"generated g.yaml\n";
    assert_eq!(collected_graph_files(Some(1), out), Vec::<Vec<u8>>::new());
    assert_eq!(collected_graph_files(Some(0), out), vec![b("g.yaml")]);
    assert_eq!(collected_graph_files(None, out), vec![b("g.yaml")]);
}

#[test]
fn chunks_cover_work_within_thread_count() {
    assert_eq!(chunk_bounds(10, 8), vec![(0, 2), (2, 4), (4, 6), (6, 8), (8, 10)]);
    assert_eq!(chunk_bounds(0, 8), Vec::<(usize, usize)>::new());
    assert_eq!(chunk_bounds(3, 8), vec![(0, 1), (1, 2), (2, 3)]);
    for n in 0..200usize {
        let c = chunk_bounds(n, 8);
        assert!(c.len() <= 8);
        let mut next = 0;
        for (s, e) in c {
            assert_eq!(s, next);
            assert!(e > s);
            next = e;
        }
        assert_eq!(next, n);
    }
}

#[test]
fn order_changes_between_resources() {
    let orders = vec![vec![0, 1, 2], vec![0, 1, 2], vec![1, 0, 2], vec![1, 0, 2], vec![2]];
    assert_eq!(order_changes(&orders), vec![2, 4]);
    assert_eq!(order_changes(&Vec::new()), Vec::<usize>::new());
}

fn items(list: &[(&str, u64)]) -> Vec<(String, u64)> {
    list.iter().map(|(n, a)| (n.to_string(), *a)).collect()
}

#[test]
fn resource_names_first_seen() {
    let hosts = vec![items(&[("cpu", 4), ("mem", 16)]), items(&[("mem", 8), ("gpu", 1), ("cpu", 2)])];
    assert_eq!(resource_names(&hosts), vec!["cpu".to_string(), "mem".to_string(), "gpu".to_string()]);
}

#[test]
fn host_table_amounts() {
    let hosts = vec![items(&[("cpu", 4), ("mem", 16), ("cpu", 6)]), items(&[("gpu", 1)])];
    let (names, table) = host_table(&hosts);
    assert_eq!(names, vec!["cpu".to_string(), "mem".to_string(), "gpu".to_string()]);
    assert_eq!(table, vec![vec![6, 16, 0], vec![0, 0, 1]]);
}

#[test]
fn application_amounts_and_unknown_resources() {
    let names = vec!["cpu".to_string(), "mem".to_string()];
    let apps = vec![items(&[("mem", 2)]), items(&[("cpu", 1), ("mem", 3)])];
    assert!(all_resources_known(&names, &apps));
    assert_eq!(capacity_matrix(&names, &apps), vec![vec![0, 2], vec![1, 3]]);
    assert!(!all_resources_known(&names, &vec![items(&[("disk", 1)])]));
    assert_eq!(resource_position(&names, &"mem".to_string()), Some(1));
    assert_eq!(resource_position(&names, &"disk".to_string()), None);
}

#[test]
fn split_then_join_gives_back_text() {
    for s in ["", "a", "//a//b/", "x y  z", "\n\n"] {
        for sep in [b'/', b' ', b'\n'] {
            let pieces = split_fields(s.as_bytes(), sep);
            assert!(!pieces.is_empty());
            assert!(pieces.iter().all(|p| !p.contains(&sep)));
            assert_eq!(pieces.join(&sep), s.as_bytes().to_vec());
        }
    }
}

#[test]
fn resource_names_are_distinct_and_complete() {
    let hosts = vec![items(&[("a", 1), ("b", 2), ("a", 3)]), items(&[]), items(&[("c", 1), ("b", 1)])];
    let names = resource_names(&hosts);
    assert_eq!(names.len(), 3);
    for host in hosts.iter() {
        for (n, _) in host.iter() {
            assert!(names.contains(n));
        }
    }
}
