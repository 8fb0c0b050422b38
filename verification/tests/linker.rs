use linkcore::{
    BuildWarning, ImportKind, LinkStage, ModuleId, ModuleTable, NormalModule,
    ResolvedImportRecord, EXEC_ORDER_UNSET,
};

fn module(name: &str, deps: Vec<(ImportKind, ModuleId)>) -> NormalModule {
    NormalModule {
        resource_id: name.to_owned(),
        import_records: deps
            .into_iter()
            .map(|(kind, resolved_module)| ResolvedImportRecord { kind, resolved_module })
            .collect(),
        exec_order: EXEC_ORDER_UNSET,
    }
}

#[test]
fn runtime_runs_first_and_orders_are_dense() {
    // runtime (0), then A (1) importing B (2); A is the sole entry
    let table = ModuleTable {
        normal_modules: vec![
            module("runtime", vec![]),
            module("a", vec![(ImportKind::Import, ModuleId::Normal(2))]),
            module("b", vec![]),
        ],
        external_modules: vec![],
    };
    let mut stage = LinkStage::new(table, vec![1], 0);
    stage.sort_modules();
    assert_eq!(stage.sorted_modules, vec![0, 2, 1]);
    assert_eq!(stage.module_table.normal_modules[0].exec_order, 0);
    assert_eq!(stage.module_table.normal_modules[2].exec_order, 1);
    assert_eq!(stage.module_table.normal_modules[1].exec_order, 2);
    assert!(stage.warnings.is_empty());
}

#[test]
fn dynamic_imports_do_not_constrain_order() {
    // A dynamically imports B; B is never reached statically
    let table = ModuleTable {
        normal_modules: vec![
            module("runtime", vec![]),
            module("a", vec![(ImportKind::DynamicImport, ModuleId::Normal(2))]),
            module("b", vec![]),
        ],
        external_modules: vec![],
    };
    let mut stage = LinkStage::new(table, vec![1], 0);
    stage.sort_modules();
    assert_eq!(stage.sorted_modules, vec![0, 1]);
    assert_eq!(stage.module_table.normal_modules[2].exec_order, EXEC_ORDER_UNSET);
}

#[test]
fn external_modules_are_scheduled_before_importers() {
    let table = ModuleTable {
        normal_modules: vec![
            module("runtime", vec![]),
            module("a", vec![(ImportKind::Require, ModuleId::External(0))]),
        ],
        external_modules: vec![linkcore::ExternalModule {
            resource_id: "fs".to_owned(),
            exec_order: EXEC_ORDER_UNSET,
        }],
    };
    let mut stage = LinkStage::new(table, vec![1], 0);
    stage.sort_modules();
    assert_eq!(stage.sorted_modules, vec![0, 1]);
    assert_eq!(stage.module_table.external_modules[0].exec_order, 1);
    assert_eq!(stage.module_table.normal_modules[1].exec_order, 2);
}

#[test]
fn three_module_cycle_terminates_with_one_warning() {
    // A -> B -> C -> A with A as the sole entry, plus the runtime module
    let table = ModuleTable {
        normal_modules: vec![
            module("runtime", vec![]),
            module("a", vec![(ImportKind::Import, ModuleId::Normal(2))]),
            module("b", vec![(ImportKind::Import, ModuleId::Normal(3))]),
            module("c", vec![(ImportKind::Import, ModuleId::Normal(1))]),
        ],
        external_modules: vec![],
    };
    let mut stage = LinkStage::new(table, vec![1], 0);
    stage.sort_modules();
    // every module received a distinct, dense order starting at the runtime
    let mut orders: Vec<u32> = stage
        .module_table
        .normal_modules
        .iter()
        .map(|m| m.exec_order)
        .collect();
    orders.sort_unstable();
    assert_eq!(orders, vec![0, 1, 2, 3]);
    assert_eq!(stage.module_table.normal_modules[0].exec_order, 0);
    assert_eq!(stage.sorted_modules[0], 0);
    // exactly one circular-dependency warning naming {a, b, c}
    assert_eq!(stage.warnings.len(), 1);
    match &stage.warnings[0] {
        BuildWarning::CircularDependency { paths } => {
            let mut named: Vec<String> = paths.clone();
            named.sort();
            named.dedup();
            assert_eq!(named, vec!["a".to_owned(), "b".to_owned(), "c".to_owned()]);
        }
        other => panic!("unexpected warning {other:?}"),
    }
}

#[test]
fn entries_are_visited_in_declaration_order() {
    let table = ModuleTable {
        normal_modules: vec![
            module("runtime", vec![]),
            module("a", vec![]),
            module("b", vec![]),
        ],
        external_modules: vec![],
    };
    let mut stage = LinkStage::new(table, vec![2, 1], 0);
    stage.sort_modules();
    assert_eq!(stage.sorted_modules, vec![0, 2, 1]);
}
