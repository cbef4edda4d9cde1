use cherry_sight::index::SymbolId;
use cherry_sight::project_analysis::{
    CodeLocation, ComplexityAnalyzer, ComplexityMetrics, ComplexityRating, CouplingMetrics,
    DeadCodeResult, DeadCodeStats, DependencyAnalyzer, DependencyGraph,
};
use cherry_sight::util::FileId;

#[test]
fn test_complexity_metrics_creation() {
    let metrics = ComplexityMetrics::new();
    assert_eq!(metrics.cyclomatic_complexity, 1);
    assert!(!metrics.is_high_complexity());
}

#[test]
fn test_high_complexity_detection() {
    let high_metrics = ComplexityMetrics {
        cyclomatic_complexity: 15,
        cognitive_complexity: 20,
        lines_of_code: 200,
        nesting_depth: 5,
    };

    assert!(high_metrics.is_high_complexity());
}

#[test]
fn test_complexity_rating() {
    let low = ComplexityMetrics { cyclomatic_complexity: 3, ..Default::default() };
    assert_eq!(low.get_rating(), ComplexityRating::Low);

    let high = ComplexityMetrics { cyclomatic_complexity: 15, ..Default::default() };
    assert_eq!(high.get_rating(), ComplexityRating::High);
}

#[test]
fn complexity_rating_boundaries() {
    let rating = |c: usize| ComplexityMetrics { cyclomatic_complexity: c, ..Default::default() }.get_rating();
    assert_eq!(rating(5), ComplexityRating::Low);
    assert_eq!(rating(6), ComplexityRating::Medium);
    assert_eq!(rating(10), ComplexityRating::Medium);
    assert_eq!(rating(20), ComplexityRating::High);
    assert_eq!(rating(21), ComplexityRating::VeryHigh);
    let cognitive_only = ComplexityMetrics { cognitive_complexity: 16, ..Default::default() };
    assert!(cognitive_only.is_high_complexity());
    let at_limits = ComplexityMetrics { cyclomatic_complexity: 10, cognitive_complexity: 15, ..Default::default() };
    assert!(!at_limits.is_high_complexity());
}

#[test]
fn test_complexity_analyzer() {
    let analyzer = ComplexityAnalyzer::new();
    let symbol_id = SymbolId::new(1);

    let complexity = analyzer.calculate_cyclomatic(symbol_id);
    assert_eq!(complexity, 1); // Minimum complexity
}

#[test]
fn test_analyze_function() {
    let analyzer = ComplexityAnalyzer::new();
    let metrics = analyzer.analyze_function(SymbolId::new(1));

    assert!(metrics.cyclomatic_complexity >= 1);
}

#[test]
fn test_dead_code_result_creation() {
    let result = DeadCodeResult::new();
    assert_eq!(result.total_issues(), 0);
    assert!(!result.has_issues());
}

#[test]
fn test_dead_code_result_with_issues() {
    let mut result = DeadCodeResult::new();
    result.unused_functions.push(SymbolId::new(1));
    result.unused_classes.push(SymbolId::new(2));

    assert_eq!(result.total_issues(), 2);
    assert!(result.has_issues());
}

#[test]
fn dead_code_stats_count_each_list() {
    let mut result = DeadCodeResult::new();
    result.unused_variables.push(SymbolId::new(3));
    result.unreachable_code.push(CodeLocation { file_id: FileId::new(1), line: 4, column: 2 });
    let stats = DeadCodeStats::from_result(&result, 10);
    assert_eq!(stats.total_symbols, 10);
    assert_eq!(stats.unused_variables, 1);
    assert_eq!(stats.unreachable_code_count, 1);
    assert_eq!(stats.unused_functions, 0);
    assert_eq!(result.total_issues(), 2);
}

#[test]
fn test_dependency_graph_creation() {
    let graph = DependencyGraph::new();
    assert!(graph.is_empty());
}

#[test]
fn test_add_dependency() {
    let mut graph = DependencyGraph::new();
    let file1 = FileId::new(1);
    let file2 = FileId::new(2);

    graph.add_dependency(file1, file2);

    assert_eq!(graph.get_dependencies(file1), vec![file2]);
    assert_eq!(graph.get_dependents(file2), vec![file1]);
}

#[test]
fn dependencies_test_circular_dependency_detection() {
    let mut graph = DependencyGraph::new();
    let file1 = FileId::new(1);
    let file2 = FileId::new(2);
    let file3 = FileId::new(3);

    // Create cycle: 1 -> 2 -> 3 -> 1
    graph.add_dependency(file1, file2);
    graph.add_dependency(file2, file3);
    graph.add_dependency(file3, file1);

    let cycles = graph.find_cycles();
    assert!(!cycles.is_empty());
}

#[test]
fn dependencies_test_transitive_dependencies() {
    let mut graph = DependencyGraph::new();
    let file1 = FileId::new(1);
    let file2 = FileId::new(2);
    let file3 = FileId::new(3);

    graph.add_dependency(file1, file2);
    graph.add_dependency(file2, file3);

    let transitive = graph.get_transitive_dependencies(file1);
    assert!(transitive.contains(&file2));
    assert!(transitive.contains(&file3));
}

#[test]
fn test_coupling_metrics() {
    let mut graph = DependencyGraph::new();
    let file1 = FileId::new(1);
    let file2 = FileId::new(2);
    let file3 = FileId::new(3);

    graph.add_dependency(file1, file2);
    graph.add_dependency(file3, file2);

    let metrics = graph.calculate_coupling(file2);
    assert_eq!(metrics.afferent_coupling, 2); // file1 and file3 depend on file2
    assert_eq!(metrics.efferent_coupling, 0); // file2 doesn't depend on others
}

#[test]
fn test_is_highly_unstable() {
    let stable = CouplingMetrics { afferent_coupling: 9, efferent_coupling: 1 };
    assert!(!stable.is_highly_unstable());

    let unstable = CouplingMetrics { afferent_coupling: 1, efferent_coupling: 9 };
    assert!(unstable.is_highly_unstable());
}

#[test]
fn instability_at_the_threshold_is_not_high() {
    // 4 / (1 + 4) is exactly 0.8, which is not above it.
    assert!(!CouplingMetrics { afferent_coupling: 1, efferent_coupling: 4 }.is_highly_unstable());
    assert!(!CouplingMetrics { afferent_coupling: 0, efferent_coupling: 0 }.is_highly_unstable());
    assert!(CouplingMetrics { afferent_coupling: 0, efferent_coupling: 1 }.is_highly_unstable());
}

#[test]
fn test_dependency_analyzer() {
    let analyzer = DependencyAnalyzer::new();
    assert!(analyzer.graph().is_empty());
}

#[test]
fn dependency_graph_without_cycles_and_transitive_self() {
    let mut graph = DependencyGraph::new();
    let (a, b, c) = (FileId::new(1), FileId::new(2), FileId::new(3));
    graph.add_dependency(a, b);
    graph.add_dependency(a, c);
    graph.add_dependency(b, c);
    assert!(graph.find_cycles().is_empty());
    assert_eq!(graph.get_dependencies(a), vec![b, c]);
    assert_eq!(graph.get_dependents(c), vec![a, b]);
    assert!(!graph.get_transitive_dependencies(a).contains(&a));
    graph.add_dependency(c, a);
    assert!(graph.get_transitive_dependencies(a).contains(&a));
    assert!(!graph.find_cycles().is_empty());
    assert!(graph.get_dependencies(FileId::new(9)).is_empty());
}

#[test]
fn analyzer_fan_in_and_fan_out_over_an_empty_graph() {
    let mut analyzer = DependencyAnalyzer::new();
    analyzer.build_graph(&[FileId::new(1)]);
    assert!(analyzer.find_high_fan_in(0).is_empty());
    assert!(analyzer.find_high_fan_out(0).is_empty());
}

#[test]
fn add_dependency_appends_and_keeps_other_lists() {
    let mut graph = DependencyGraph::new();
    let (a, b, c) = (FileId::new(1), FileId::new(2), FileId::new(3));
    graph.add_dependency(a, b);
    graph.add_dependency(c, b);
    graph.add_dependency(a, c);
    graph.add_dependency(a, b);
    // A repeated edge is listed twice, in the order the edges came.
    assert_eq!(graph.get_dependencies(a), vec![b, c, b]);
    assert_eq!(graph.get_dependents(b), vec![a, c, a]);
    assert_eq!(graph.get_dependencies(c), vec![b]);
    assert_eq!(graph.get_dependents(c), vec![a]);
    assert!(graph.get_dependencies(b).is_empty());
    assert!(graph.get_dependents(a).is_empty());
}
