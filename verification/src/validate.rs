//! Manifest validation against a package set: missing dependencies,
//! duplicate declarations and redundant test dependencies.

use vstd::prelude::*;

use crate::config::{spec_test_dep_names, SpagoConfig};
use crate::textutil::strs_of;
use crate::name::{names_of, PackageName};
use crate::package::PackageModel;
use crate::query::PackageQuery;

verus! {

/// Where a dependency is declared.
#[derive(Debug, PartialEq, Eq, Structural)]
pub enum DependencyContext {
    Package,
    Test,
}

/// A validation error.
pub enum ValidationError {
    MissingDependency { package: PackageName, context: DependencyContext },
    EmptyName,
}

/// Mathematical image of a validation error.
pub ghost enum ValidationErrorModel {
    MissingDependency { package: Seq<char>, context: DependencyContext },
    EmptyName,
}

impl View for ValidationError {
    type V = ValidationErrorModel;

    open spec fn view(&self) -> ValidationErrorModel {
        match self {
            ValidationError::MissingDependency { package, context } => {
                ValidationErrorModel::MissingDependency { package: package@, context: *context }
            },
            ValidationError::EmptyName => ValidationErrorModel::EmptyName,
        }
    }
}

impl ValidationError {
    /// The user-visible description of the error.
    pub fn message(&self) -> (r: String)
        ensures
            match self@ {
                ValidationErrorModel::MissingDependency { package, context } => r@ == "Package '"@
                    + package + "' not found in package set ("@ + (
                if context is Package {
                    "package dependencies"@
                } else {
                    "test dependencies"@
                }) + ")"@,
                ValidationErrorModel::EmptyName => r@ == "Package name cannot be empty"@,
            },
    {
        match self {
            ValidationError::MissingDependency { package, context } => {
                let ctx: &str = match context {
                    DependencyContext::Package => "package dependencies",
                    DependencyContext::Test => "test dependencies",
                };
                String::from_str("Package '").concat(package.0.as_str()).concat(
                    "' not found in package set (",
                ).concat(ctx).concat(")")
            },
            ValidationError::EmptyName => String::from_str("Package name cannot be empty"),
        }
    }
}

/// The views of a sequence of validation errors.
pub open spec fn ve_models_of(s: Seq<ValidationError>) -> Seq<ValidationErrorModel> {
    s.map_values(|e: ValidationError| e@)
}

/// Result of configuration validation.
pub struct ValidationResult {
    pub is_valid: bool,
    pub errors: Vec<ValidationError>,
    pub warnings: Vec<String>,
}

impl ValidationResult {
    /// A fresh, valid, empty result.
    pub fn new() -> (r: Self)
        ensures
            r.is_valid,
            r.errors@.len() == 0,
            r.warnings@.len() == 0,
    {
        ValidationResult { is_valid: true, errors: Vec::new(), warnings: Vec::new() }
    }

    /// Records an error; the result is invalid from then on.
    pub fn add_error(&mut self, error: ValidationError)
        ensures
            !final(self).is_valid,
            final(self).errors@ == old(self).errors@.push(error),
            final(self).warnings == old(self).warnings,
    {
        self.is_valid = false;
        self.errors.push(error);
    }

    /// Records a warning; warnings do not make the result invalid.
    pub fn add_warning(&mut self, warning: String)
        ensures
            final(self).is_valid == old(self).is_valid,
            final(self).errors == old(self).errors,
            final(self).warnings@ == old(self).warnings@.push(warning),
    {
        self.warnings.push(warning);
    }
}

impl Default for ValidationResult {
    fn default() -> (r: Self)
        ensures
            r.is_valid,
            r.errors@.len() == 0,
            r.warnings@.len() == 0,
    {
        ValidationResult::new()
    }
}

/// The missing-dependency errors of a name list: one error, in order, for
/// each name absent from the set.
pub open spec fn missing_errs(
    pm: Map<Seq<char>, PackageModel>,
    ds: Seq<Seq<char>>,
    context: DependencyContext,
) -> Seq<ValidationErrorModel>
    decreases ds.len(),
{
    if ds.len() == 0 {
        Seq::empty()
    } else {
        let rest = missing_errs(pm, ds.drop_last(), context);
        if pm.contains_key(ds.last()) {
            rest
        } else {
            rest.push(ValidationErrorModel::MissingDependency { package: ds.last(), context })
        }
    }
}

/// The duplicate warnings of a name list: one warning for each occurrence
/// that repeats an earlier one, in order.
pub open spec fn dup_warnings(ds: Seq<Seq<char>>, prefix: Seq<char>) -> Seq<Seq<char>>
    decreases ds.len(),
{
    if ds.len() == 0 {
        Seq::empty()
    } else {
        let rest = dup_warnings(ds.drop_last(), prefix);
        if ds.drop_last().contains(ds.last()) {
            rest.push(prefix + ds.last())
        } else {
            rest
        }
    }
}

/// The redundancy warnings: one for each test dependency already among the
/// package dependencies, in order.
pub open spec fn redundant_warnings(pdeps: Seq<Seq<char>>, tdeps: Seq<Seq<char>>) -> Seq<
    Seq<char>,
>
    decreases tdeps.len(),
{
    if tdeps.len() == 0 {
        Seq::empty()
    } else {
        let rest = redundant_warnings(pdeps, tdeps.drop_last());
        if pdeps.contains(tdeps.last()) {
            rest.push(
                "Test dependency '"@ + tdeps.last()
                    + "' already in package dependencies (redundant)"@,
            )
        } else {
            rest
        }
    }
}

/// Every error a validation run reports, in order: an empty-name error
/// first, then a missing-dependency error per absent package dependency,
/// then one per absent test dependency.
pub open spec fn spec_validation_errors(
    pm: Map<Seq<char>, PackageModel>,
    config: &SpagoConfig,
) -> Seq<ValidationErrorModel> {
    (if config.package.name@.len() == 0 {
        seq![ValidationErrorModel::EmptyName]
    } else {
        Seq::empty()
    }) + missing_errs(pm, names_of(config.package.dependencies@), DependencyContext::Package)
        + missing_errs(pm, spec_test_dep_names(config), DependencyContext::Test)
}

/// Every warning a validation run reports, in order: duplicate package
/// dependencies, then — when a test section exists — duplicate test
/// dependencies and test dependencies redundant with package
/// dependencies.
pub open spec fn spec_validation_warnings(config: &SpagoConfig) -> Seq<Seq<char>> {
    dup_warnings(names_of(config.package.dependencies@), "Duplicate dependency in package: "@) + (
    match config.package.test {
        Some(_) => dup_warnings(spec_test_dep_names(config), "Duplicate dependency in test: "@)
            + redundant_warnings(
            names_of(config.package.dependencies@),
            spec_test_dep_names(config),
        ),
        None => Seq::empty(),
    })
}

/// Validates a manifest against a package set: the package name must not
/// be empty and every declared dependency must exist in the set;
/// duplicate and redundant declarations are warned about.
#[verifier::loop_isolation(false)]
#[verifier::rlimit(60)]
pub fn validate_config(config: &SpagoConfig, query: &PackageQuery) -> (r: ValidationResult)
    requires
        query.wf(),
    ensures
        r.is_valid == (r.errors@.len() == 0),
        ve_models_of(r.errors@) == spec_validation_errors(query.pm(), config),
        strs_of(r.warnings@) == spec_validation_warnings(config),
{
    let ghost pm = query.pm();
    let mut result = ValidationResult::new();

    if config.package.name.0.as_str().unicode_len() == 0 {
        result.add_error(ValidationError::EmptyName);
    }
    let ghost head = ve_models_of(result.errors@);

    let pdeps = &config.package.dependencies;
    let ghost pds = names_of(pdeps@);
    let mut i: usize = 0;
    while i < pdeps.len()
        invariant
            0 <= i <= pds.len(),
            result.is_valid == (result.errors@.len() == 0),
            result.warnings@.len() == 0,
            ve_models_of(result.errors@) =~= head + missing_errs(
                pm,
                pds.take(i as int),
                DependencyContext::Package,
            ),
        decreases pds.len() - i,
    {
        proof {
            assert(pds.take(i + 1).drop_last() =~= pds.take(i as int));
            assert(pds.take(i + 1).last() == pds[i as int]);
            assert(pds[i as int] == pdeps@[i as int]@);
        }
        let ghost e0 = ve_models_of(result.errors@);
        if !query.has_package(&pdeps[i]) {
            result.add_error(
                ValidationError::MissingDependency {
                    package: pdeps[i].clone(),
                    context: DependencyContext::Package,
                },
            );
            proof {
                assert(ve_models_of(result.errors@) =~= e0.push(
                    ValidationErrorModel::MissingDependency {
                        package: pds[i as int],
                        context: DependencyContext::Package,
                    },
                ));
            }
        }
        i += 1;
    }
    proof {
        assert(pds.take(pds.len() as int) =~= pds);
    }

    let ghost head2 = ve_models_of(result.errors@);
    match &config.package.test {
        Some(t) => {
            let tds = &t.dependencies;
            let ghost tns = names_of(tds@);
            proof {
                assert(tns == spec_test_dep_names(config));
            }
            let mut k: usize = 0;
            while k < tds.len()
                invariant
                    0 <= k <= tns.len(),
                    result.is_valid == (result.errors@.len() == 0),
                    result.warnings@.len() == 0,
                    ve_models_of(result.errors@) =~= head2 + missing_errs(
                        pm,
                        tns.take(k as int),
                        DependencyContext::Test,
                    ),
                decreases tns.len() - k,
            {
                proof {
                    assert(tns.take(k + 1).drop_last() =~= tns.take(k as int));
                    assert(tns.take(k + 1).last() == tns[k as int]);
                    assert(tns[k as int] == tds@[k as int]@);
                }
                let ghost e0 = ve_models_of(result.errors@);
                if !query.has_package(&tds[k]) {
                    result.add_error(
                        ValidationError::MissingDependency {
                            package: tds[k].clone(),
                            context: DependencyContext::Test,
                        },
                    );
                    proof {
                        assert(ve_models_of(result.errors@) =~= e0.push(
                            ValidationErrorModel::MissingDependency {
                                package: tns[k as int],
                                context: DependencyContext::Test,
                            },
                        ));
                    }
                }
                k += 1;
            }
            proof {
                assert(tns.take(tns.len() as int) =~= tns);
            }
        },
        None => {},
    }
    proof {
        assert(ve_models_of(result.errors@) =~= spec_validation_errors(pm, config));
    }

    // Duplicate package dependencies.
    let mut i: usize = 0;
    while i < pdeps.len()
        invariant
            0 <= i <= pds.len(),
            result.is_valid == (result.errors@.len() == 0),
            ve_models_of(result.errors@) == spec_validation_errors(pm, config),
            strs_of(result.warnings@) =~= dup_warnings(
                pds.take(i as int),
                "Duplicate dependency in package: "@,
            ),
        decreases pds.len() - i,
    {
        proof {
            assert(pds.take(i + 1).drop_last() =~= pds.take(i as int));
            assert(pds.take(i + 1).last() == pds[i as int]);
            assert(pds[i as int] == pdeps@[i as int]@);
        }
        let ghost w0 = strs_of(result.warnings@);
        let mut seen = false;
        let mut j: usize = 0;
        while j < i
            invariant
                0 <= j <= i <= pds.len(),
                pds == names_of(pdeps@),
                seen == exists|q: int| 0 <= q < j && pds[q] == pds[i as int],
            decreases i - j,
        {
            proof {
                assert(pds[j as int] == pdeps@[j as int]@);
            }
            if pdeps[j] == pdeps[i] {
                seen = true;
            }
            j += 1;
        }
        proof {
            assert(seen == pds.take(i as int).contains(pds[i as int])) by {
                if seen {
                    let q = choose|q: int| 0 <= q < i && pds[q] == pds[i as int];
                    assert(pds.take(i as int)[q] == pds[i as int]);
                }
                if pds.take(i as int).contains(pds[i as int]) {
                    let q = choose|q: int|
                        0 <= q < i && pds.take(i as int)[q] == pds[i as int];
                    assert(pds[q] == pds[i as int]);
                }
            }
        }
        if seen {
            result.add_warning(
                String::from_str("Duplicate dependency in package: ").concat(pdeps[i].0.as_str()),
            );
            proof {
                assert(strs_of(result.warnings@) =~= w0.push(
                    "Duplicate dependency in package: "@ + pds[i as int],
                ));
            }
        }
        i += 1;
    }
    proof {
        assert(pds.take(pds.len() as int) =~= pds);
    }

    let ghost whead = strs_of(result.warnings@);
    match &config.package.test {
        Some(t) => {
            let tds = &t.dependencies;
            let ghost tns = names_of(tds@);
            let mut k: usize = 0;
            while k < tds.len()
                invariant
                    0 <= k <= tns.len(),
                    tns == names_of(tds@),
                    tns == spec_test_dep_names(config),
                    result.is_valid == (result.errors@.len() == 0),
                    ve_models_of(result.errors@) == spec_validation_errors(pm, config),
                    strs_of(result.warnings@) =~= whead + dup_warnings(
                        tns.take(k as int),
                        "Duplicate dependency in test: "@,
                    ),
                decreases tns.len() - k,
            {
                proof {
                    assert(tns.take(k + 1).drop_last() =~= tns.take(k as int));
                    assert(tns.take(k + 1).last() == tns[k as int]);
                    assert(tns[k as int] == tds@[k as int]@);
                }
                let ghost w0 = strs_of(result.warnings@);
                let mut seen = false;
                let mut j: usize = 0;
                while j < k
                    invariant
                        0 <= j <= k <= tns.len(),
                        tns == names_of(tds@),
                        seen == exists|q: int| 0 <= q < j && tns[q] == tns[k as int],
                    decreases k - j,
                {
                    proof {
                        assert(tns[j as int] == tds@[j as int]@);
                    }
                    if tds[j] == tds[k] {
                        seen = true;
                    }
                    j += 1;
                }
                proof {
                    assert(seen == tns.take(k as int).contains(tns[k as int])) by {
                        if seen {
                            let q = choose|q: int| 0 <= q < k && tns[q] == tns[k as int];
                            assert(tns.take(k as int)[q] == tns[k as int]);
                        }
                        if tns.take(k as int).contains(tns[k as int]) {
                            let q = choose|q: int|
                                0 <= q < k && tns.take(k as int)[q] == tns[k as int];
                            assert(tns[q] == tns[k as int]);
                        }
                    }
                }
                if seen {
                    result.add_warning(
                        String::from_str("Duplicate dependency in test: ").concat(
                            tds[k].0.as_str(),
                        ),
                    );
                    proof {
                        assert(strs_of(result.warnings@) =~= w0.push(
                            "Duplicate dependency in test: "@ + tns[k as int],
                        ));
                    }
                }
                k += 1;
            }
            proof {
                assert(tns.take(tns.len() as int) =~= tns);
            }

            let ghost whead2 = strs_of(result.warnings@);
            let mut k: usize = 0;
            while k < tds.len()
                invariant
                    0 <= k <= tns.len(),
                    tns == names_of(tds@),
                    tns == spec_test_dep_names(config),
                    pds == names_of(pdeps@),
                    result.is_valid == (result.errors@.len() == 0),
                    ve_models_of(result.errors@) == spec_validation_errors(pm, config),
                    strs_of(result.warnings@) =~= whead2 + redundant_warnings(
                        pds,
                        tns.take(k as int),
                    ),
                decreases tns.len() - k,
            {
                proof {
                    assert(tns.take(k + 1).drop_last() =~= tns.take(k as int));
                    assert(tns.take(k + 1).last() == tns[k as int]);
                    assert(tns[k as int] == tds@[k as int]@);
                }
                let ghost w0 = strs_of(result.warnings@);
                if crate::name::contains_name(pdeps, &tds[k]) {
                    proof {
                        crate::name::lemma_names_contains(pdeps@, tns[k as int]);
                    }
                    result.add_warning(
                        String::from_str("Test dependency '").concat(tds[k].0.as_str()).concat(
                            "' already in package dependencies (redundant)",
                        ),
                    );
                    proof {
                        assert(strs_of(result.warnings@) =~= w0.push(
                            "Test dependency '"@ + tns[k as int]
                                + "' already in package dependencies (redundant)"@,
                        ));
                    }
                } else {
                    proof {
                        crate::name::lemma_names_contains(pdeps@, tns[k as int]);
                    }
                }
                k += 1;
            }
            proof {
                assert(tns.take(tns.len() as int) =~= tns);
                assert(strs_of(result.warnings@) =~= spec_validation_warnings(config));
            }
        },
        None => {
            proof {
                assert(strs_of(result.warnings@) =~= spec_validation_warnings(config));
            }
        },
    }

    result
}

/// Checks that every transitive dependency of each declared dependency is
/// itself in the set.  The transitive traversal only ever returns packages
/// of the set, so this always passes: the result is valid and empty.
pub fn validate_transitive_deps(config: &SpagoConfig, query: &PackageQuery) -> (r:
    ValidationResult)
    requires
        query.wf(),
    ensures
        r.is_valid,
        r.errors@.len() == 0,
        r.warnings@.len() == 0,
{
    let mut result = ValidationResult::new();
    let pdeps = &config.package.dependencies;
    let mut i: usize = 0;
    while i < pdeps.len()
        invariant
            query.wf(),
            result.is_valid,
            result.errors@.len() == 0,
            result.warnings@.len() == 0,
            0 <= i <= pdeps@.len(),
        decreases pdeps@.len() - i,
    {
        match query.get_transitive_dependencies(&pdeps[i]) {
            Ok(transitive) => {
                let mut j: usize = 0;
                while j < transitive.len()
                    invariant
                        query.wf(),
                        result.is_valid,
                        result.errors@.len() == 0,
                        result.warnings@.len() == 0,
                        0 <= j <= transitive@.len(),
                        forall|q: int|
                            0 <= q < transitive@.len() ==> query.pm().contains_key(
                                #[trigger] transitive@[q]@.name(),
                            ),
                    decreases transitive@.len() - j,
                {
                    if !query.has_package(transitive[j].name()) {
                        // Unreachable: the traversal only returns members
                        // of the set.
                        result.add_error(
                            ValidationError::MissingDependency {
                                package: transitive[j].name().clone(),
                                context: DependencyContext::Package,
                            },
                        );
                        proof {
                            assert(false);
                        }
                    }
                    j += 1;
                }
            },
            Err(_) => {},
        }
        i += 1;
    }
    result
}

} // verus!
