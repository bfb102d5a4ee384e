//! Verifying that local package dependencies match the bytecode deployed
//! on-chain: every compiled dependency module is compared byte for byte with
//! the module of the same name in the package stored at its address. Module
//! names and package symbols are interned identifiers; fetching the on-chain
//! packages is the caller's business, the comparison is decided here.

use vstd::prelude::*;

verus! {

/// An interned symbol: a package or module name.
pub type Symbol = u64;

/// An account address; the zero address is the package under verification.
pub type AccountAddress = u64;

/// One compiled unit of a local build: its package, module name, resolved
/// address and serialized bytes. Units that are not modules (scripts) carry
/// `is_module == false` and are not compared.
pub struct CompiledUnit {
    pub package: Symbol,
    pub name: Symbol,
    pub address: AccountAddress,
    pub bytes: Vec<u8>,
    pub is_module: bool,
}

/// A locally compiled package: its own name and the compiled units of its
/// dependencies.
pub struct CompiledPackage {
    pub package_name: Symbol,
    pub deps_compiled_units: Vec<CompiledUnit>,
}

/// A package as stored on-chain: module name to bytecode.
pub struct SuiRawMovePackage {
    pub module_map: Vec<(Symbol, Vec<u8>)>,
}

/// A verified dependency: the package symbol and the on-chain module bytes it
/// was verified against.
pub struct Dependency {
    pub symbol: Symbol,
    pub module_bytes: Vec<(Symbol, Vec<u8>)>,
}

/// The verified dependencies, keyed by address.
pub struct DependencyVerificationResult {
    pub verified_dependencies: Vec<(AccountAddress, Dependency)>,
}

/// Why dependency verification failed.
#[derive(Debug, PartialEq, Eq)]
pub enum DependencyVerificationError {
    /// The caller supplied no on-chain package for this address.
    DependencyObjectReadFailure { address: AccountAddress },
    /// The address holds an object, not a package.
    ObjectFoundWhenPackageExpected { object_id: AccountAddress },
    /// A local dependency module has no counterpart on-chain.
    LocalDependencyNotFound { package: Symbol, module: Symbol },
    /// Local dependencies have more modules than were verified on-chain.
    ModuleCountMismatch { expected: usize, on_chain: usize, missing: Vec<(Symbol, Symbol)> },
    /// A local dependency module differs from its on-chain version.
    ModuleBytecodeMismatch { package: Symbol, module: Symbol, address: AccountAddress },
}

/// The bytes of the module named `name`, if the package holds it.
pub open spec fn bytes_of(map: Seq<(Symbol, Vec<u8>)>, name: Symbol) -> Option<Seq<u8>>
    decreases map.len(),
{
    if map.len() == 0 {
        None
    } else if map[0].0 == name {
        Some(map[0].1@)
    } else {
        bytes_of(map.skip(1), name)
    }
}

/// The on-chain package stored at `addr`, if fetched.
pub open spec fn package_at(
    on_chain: Seq<(AccountAddress, SuiRawMovePackage)>,
    addr: AccountAddress,
) -> Option<SuiRawMovePackage>
    decreases on_chain.len(),
{
    if on_chain.len() == 0 {
        None
    } else if on_chain[0].0 == addr {
        Some(on_chain[0].1)
    } else {
        package_at(on_chain.skip(1), addr)
    }
}

/// Compares two byte strings.
pub fn bytes_eq(a: &Vec<u8>, b: &Vec<u8>) -> (r: bool)
    ensures
        r == (a@ == b@),
{
    if a.len() != b.len() {
        proof {
            assert(a@.len() != b@.len());
        }
        return false;
    }
    let mut i: usize = 0;
    while i < a.len()
        invariant
            i <= a@.len(),
            a@.len() == b@.len(),
            forall|k: int| 0 <= k < i ==> a@[k] == b@[k],
        decreases a@.len() - i,
    {
        if a[i] != b[i] {
            return false;
        }
        i = i + 1;
    }
    proof {
        assert(a@ =~= b@);
    }
    true
}

/// Looks a module up by name.
fn find_module<'a>(map: &'a Vec<(Symbol, Vec<u8>)>, name: Symbol) -> (r: Option<&'a Vec<u8>>)
    ensures
        match r {
            Some(b) => bytes_of(map@, name) == Some(b@),
            None => bytes_of(map@, name) is None,
        },
{
    proof {
        assert(map@.skip(0) =~= map@);
    }
    let mut i: usize = 0;
    while i < map.len()
        invariant
            i <= map@.len(),
            bytes_of(map@, name) == bytes_of(map@.skip(i as int), name),
        decreases map@.len() - i,
    {
        proof {
            assert(map@.skip(i as int)[0] == map@[i as int]);
            assert(map@.skip(i as int).skip(1) =~= map@.skip(i as int + 1));
        }
        if map[i].0 == name {
            return Some(&map[i].1);
        }
        i = i + 1;
    }
    None
}

/// Looks a fetched package up by address.
fn find_package<'a>(
    on_chain: &'a Vec<(AccountAddress, SuiRawMovePackage)>,
    addr: AccountAddress,
) -> (r: Option<&'a SuiRawMovePackage>)
    ensures
        match r {
            Some(p) => package_at(on_chain@, addr) == Some(*p),
            None => package_at(on_chain@, addr) is None,
        },
{
    proof {
        assert(on_chain@.skip(0) =~= on_chain@);
    }
    let mut i: usize = 0;
    while i < on_chain.len()
        invariant
            i <= on_chain@.len(),
            package_at(on_chain@, addr) == package_at(on_chain@.skip(i as int), addr),
        decreases on_chain@.len() - i,
    {
        proof {
            assert(on_chain@.skip(i as int)[0] == on_chain@[i as int]);
            assert(on_chain@.skip(i as int).skip(1) =~= on_chain@.skip(i as int + 1));
        }
        if on_chain[i].0 == addr {
            return Some(&on_chain[i].1);
        }
        i = i + 1;
    }
    None
}

/// The verified dependency stored for `addr`, if any.
pub open spec fn dependency_at(
    verified: Seq<(AccountAddress, Dependency)>,
    addr: AccountAddress,
) -> Option<Dependency>
    decreases verified.len(),
{
    if verified.len() == 0 {
        None
    } else if verified[0].0 == addr {
        Some(verified[0].1)
    } else {
        dependency_at(verified.skip(1), addr)
    }
}

/// Looks a verified dependency up by address.
fn find_dependency<'a>(
    verified: &'a Vec<(AccountAddress, Dependency)>,
    addr: AccountAddress,
) -> (r: Option<&'a Dependency>)
    ensures
        match r {
            Some(d) => dependency_at(verified@, addr) == Some(*d),
            None => dependency_at(verified@, addr) is None,
        },
{
    proof {
        assert(verified@.skip(0) =~= verified@);
    }
    let mut i: usize = 0;
    while i < verified.len()
        invariant
            i <= verified@.len(),
            dependency_at(verified@, addr) == dependency_at(verified@.skip(i as int), addr),
        decreases verified@.len() - i,
    {
        proof {
            assert(verified@.skip(i as int)[0] == verified@[i as int]);
            assert(verified@.skip(i as int).skip(1) =~= verified@.skip(i as int + 1));
        }
        if verified[i].0 == addr {
            return Some(&verified[i].1);
        }
        i = i + 1;
    }
    None
}

/// A stored dependency found by address is one of the stored entries.
proof fn lemma_dependency_at_member(
    verified: Seq<(AccountAddress, Dependency)>,
    addr: AccountAddress,
)
    requires
        dependency_at(verified, addr) is Some,
    ensures
        exists|k: int|
            0 <= k < verified.len() && (#[trigger] verified[k]).0 == addr && verified[k].1
                == dependency_at(verified, addr)->0,
    decreases verified.len(),
{
    if verified.len() > 0 && verified[0].0 != addr {
        lemma_dependency_at_member(verified.skip(1), addr);
        let k = choose|k: int|
            0 <= k < verified.skip(1).len() && (#[trigger] verified.skip(1)[k]).0 == addr
                && verified.skip(1)[k].1 == dependency_at(verified.skip(1), addr)->0;
        assert(verified[k + 1].0 == addr && verified[k + 1].1 == dependency_at(verified, addr)->0);
    }
}

/// Module lookup agrees between two maps that are equal name for name and byte
/// for byte.
proof fn lemma_bytes_of_equal_maps(
    m1: Seq<(Symbol, Vec<u8>)>,
    m2: Seq<(Symbol, Vec<u8>)>,
    name: Symbol,
)
    requires
        m1.len() == m2.len(),
        forall|k: int| 0 <= k < m1.len() ==> (#[trigger] m1[k]).0 == m2[k].0 && m1[k].1@
            == m2[k].1@,
    ensures
        match (bytes_of(m1, name), bytes_of(m2, name)) {
            (Some(a), Some(b)) => a == b,
            (None, None) => true,
            _ => false,
        },
    decreases m1.len(),
{
    if m1.len() > 0 && m1[0].0 != name {
        assert forall|k: int| 0 <= k < m1.skip(1).len() implies (#[trigger] m1.skip(1)[k]).0
            == m2.skip(1)[k].0 && m1.skip(1)[k].1@ == m2.skip(1)[k].1@ by {
            assert(m1.skip(1)[k] == m1[k + 1]);
            assert(m2.skip(1)[k] == m2[k + 1]);
        }
        lemma_bytes_of_equal_maps(m1.skip(1), m2.skip(1), name);
    }
}

/// A unit is covered by a verified dependency: its package symbol has a
/// dependency whose module bytes list the unit's name.
pub open spec fn unit_covered(verified: Seq<(AccountAddress, Dependency)>, u: CompiledUnit) -> bool {
    exists|i: int|
        0 <= i < verified.len() && (#[trigger] verified[i]).1.symbol == u.package && bytes_of(
            verified[i].1.module_bytes@,
            u.name,
        ) is Some
}

/// Decides `unit_covered`.
fn is_unit_covered(verified: &Vec<(AccountAddress, Dependency)>, u: &CompiledUnit) -> (r: bool)
    ensures
        r == unit_covered(verified@, *u),
{
    let mut i: usize = 0;
    while i < verified.len()
        invariant
            i <= verified@.len(),
            forall|k: int|
                0 <= k < i ==> !((#[trigger] verified@[k]).1.symbol == u.package && bytes_of(
                    verified@[k].1.module_bytes@,
                    u.name,
                ) is Some),
        decreases verified@.len() - i,
    {
        if verified[i].1.symbol == u.package {
            match find_module(&verified[i].1.module_bytes, u.name) {
                Some(_) => {
                    proof {
                        assert((verified@[i as int]).1.symbol == u.package && bytes_of(
                            verified@[i as int].1.module_bytes@,
                            u.name,
                        ) is Some);
                    }
                    return true;
                },
                None => {},
            }
        }
        i = i + 1;
    }
    false
}

/// The (package, module) pairs of the local units not covered by the verified
/// dependencies.
pub open spec fn missing_modules_spec(
    units: Seq<CompiledUnit>,
    verified: Seq<(AccountAddress, Dependency)>,
) -> Seq<(Symbol, Symbol)>
    decreases units.len(),
{
    if units.len() == 0 {
        Seq::empty()
    } else {
        let rest = missing_modules_spec(units.drop_last(), verified);
        if unit_covered(verified, units.last()) {
            rest
        } else {
            rest.push((units.last().package, units.last().name))
        }
    }
}

/// Names the local modules not covered by any verified dependency.
pub fn get_missing_modules(
    package: &CompiledPackage,
    verified_dependencies: &Vec<(AccountAddress, Dependency)>,
) -> (out: Vec<(Symbol, Symbol)>)
    ensures
        out@ == missing_modules_spec(package.deps_compiled_units@, verified_dependencies@),
{
    let units = &package.deps_compiled_units;
    let mut out: Vec<(Symbol, Symbol)> = Vec::new();
    let mut i: usize = 0;
    while i < units.len()
        invariant
            i <= units@.len(),
            out@ == missing_modules_spec(units@.take(i as int), verified_dependencies@),
        decreases units@.len() - i,
    {
        proof {
            assert(units@.take(i + 1).drop_last() =~= units@.take(i as int));
            assert(units@.take(i + 1).last() == units@[i as int]);
        }
        if !is_unit_covered(verified_dependencies, &units[i]) {
            out.push((units[i].package, units[i].name));
        }
        i = i + 1;
    }
    proof {
        assert(units@.take(units@.len() as int) =~= units@);
    }
    out
}

/// Copies a module byte map.
fn copy_module_map(map: &Vec<(Symbol, Vec<u8>)>) -> (out: Vec<(Symbol, Vec<u8>)>)
    ensures
        out@.len() == map@.len(),
        forall|k: int|
            0 <= k < map@.len() ==> (#[trigger] out@[k]).0 == map@[k].0 && out@[k].1@
                == map@[k].1@,
{
    let mut out: Vec<(Symbol, Vec<u8>)> = Vec::new();
    let mut i: usize = 0;
    while i < map.len()
        invariant
            i <= map@.len(),
            out@.len() == i,
            forall|k: int|
                0 <= k < i ==> (#[trigger] out@[k]).0 == map@[k].0 && out@[k].1@ == map@[k].1@,
        decreases map@.len() - i,
    {
        let mut bytes: Vec<u8> = Vec::new();
        let src = &map[i].1;
        let mut j: usize = 0;
        while j < src.len()
            invariant
                j <= src@.len(),
                bytes@ == src@.take(j as int),
            decreases src@.len() - j,
        {
            bytes.push(src[j]);
            proof {
                assert(src@.take(j + 1) =~= src@.take(j as int).push(src@[j as int]));
            }
            j = j + 1;
        }
        proof {
            assert(src@.take(src@.len() as int) =~= src@);
        }
        out.push((map[i].0, bytes));
        i = i + 1;
    }
    out
}

/// A unit takes part in verification: a module of a dependency package at a
/// real address.
pub open spec fn unit_qualifies(root: Symbol, u: CompiledUnit) -> bool {
    u.is_module && u.package != root && u.address != 0
}

/// The unit's local bytes equal the module of the same name in the package
/// deployed at its address.
pub open spec fn unit_matches_chain(
    on_chain: Seq<(AccountAddress, SuiRawMovePackage)>,
    u: CompiledUnit,
) -> bool {
    package_at(on_chain, u.address) matches Some(p) && bytes_of(p.module_map@, u.name) == Some(
        u.bytes@,
    )
}

/// Every missing-module pair names one of the local units.
proof fn lemma_missing_from_units(
    units: Seq<CompiledUnit>,
    verified: Seq<(AccountAddress, Dependency)>,
)
    ensures
        forall|k: int|
            0 <= k < missing_modules_spec(units, verified).len() ==> exists|u: int|
                0 <= u < units.len() && (#[trigger] units[u]).package == (
                #[trigger] missing_modules_spec(units, verified)[k]).0 && units[u].name
                    == missing_modules_spec(units, verified)[k].1,
    decreases units.len(),
{
    if units.len() > 0 {
        lemma_missing_from_units(units.drop_last(), verified);
        let whole = missing_modules_spec(units, verified);
        let rest = missing_modules_spec(units.drop_last(), verified);
        assert forall|k: int|
            0 <= k < whole.len() implies exists|u: int|
            0 <= u < units.len() && (#[trigger] units[u]).package == (#[trigger] whole[k]).0
                && units[u].name == whole[k].1 by {
            if k < rest.len() {
                let u = choose|u: int|
                    0 <= u < units.drop_last().len() && (#[trigger] units.drop_last()[u]).package
                        == rest[k].0 && units.drop_last()[u].name == rest[k].1;
                assert(units[u].package == whole[k].0 && units[u].name == whole[k].1);
            } else {
                assert(units[units.len() - 1].package == whole[k].0 && units[units.len()
                    - 1].name == whole[k].1);
            }
        }
    }
}

/// Verifies that every local dependency module matches the bytecode deployed
/// at its resolved address, walking the compiled units in order. Units of the
/// package under verification, non-module units, units at the zero address and
/// units at an address already verified are skipped. On success each verified
/// dependency carries a copy of the on-chain module map it was checked
/// against; a mismatch names the exact package, module and address, and a
/// count mismatch lists the modules left uncovered.
pub fn verify_deployed_dependencies(
    compiled_package: &CompiledPackage,
    on_chain: &Vec<(AccountAddress, SuiRawMovePackage)>,
) -> (r: Result<DependencyVerificationResult, DependencyVerificationError>)
    ensures
        r matches Ok(res) ==> forall|k: int|
            0 <= k < res.verified_dependencies@.len() ==> {
                let entry = #[trigger] res.verified_dependencies@[k];
                package_at(on_chain@, entry.0) matches Some(p) && {
                    &&& entry.1.module_bytes@.len() == p.module_map@.len()
                    &&& forall|m: int|
                        0 <= m < p.module_map@.len() ==> (#[trigger] entry.1.module_bytes@[m]).0
                            == p.module_map@[m].0 && entry.1.module_bytes@[m].1@
                            == p.module_map@[m].1@
                }
            },
        r matches Err(DependencyVerificationError::ModuleBytecodeMismatch {
            package,
            module,
            address,
        }) ==> exists|u: int|
            0 <= u < compiled_package.deps_compiled_units@.len() && {
                let unit = #[trigger] compiled_package.deps_compiled_units@[u];
                &&& unit.package == package
                &&& unit.name == module
                &&& unit.address == address
                &&& unit.is_module
                &&& (package_at(on_chain@, address) matches Some(p) && bytes_of(
                    p.module_map@,
                    module,
                ) != Some(unit.bytes@))
            },
        r matches Err(DependencyVerificationError::ModuleCountMismatch {
            expected,
            on_chain: counted,
            missing,
        }) ==> expected == compiled_package.deps_compiled_units@.len() && expected > counted && (
        forall|k: int|
            0 <= k < missing@.len() ==> exists|u: int|
                0 <= u < compiled_package.deps_compiled_units@.len() && (
                #[trigger] compiled_package.deps_compiled_units@[u]).package == (
                #[trigger] missing@[k]).0 && compiled_package.deps_compiled_units@[u].name
                    == missing@[k].1),
        r is Ok ==> forall|u: int|
            0 <= u < compiled_package.deps_compiled_units@.len() && unit_qualifies(
                compiled_package.package_name,
                #[trigger] compiled_package.deps_compiled_units@[u],
            ) ==> unit_matches_chain(on_chain@, compiled_package.deps_compiled_units@[u]),
        r matches Err(DependencyVerificationError::DependencyObjectReadFailure { address }) ==> (
        package_at(on_chain@, address) is None && exists|u: int|
            0 <= u < compiled_package.deps_compiled_units@.len() && (
            #[trigger] compiled_package.deps_compiled_units@[u]).address == address
                && unit_qualifies(
                compiled_package.package_name,
                compiled_package.deps_compiled_units@[u],
            )),
        r matches Err(DependencyVerificationError::LocalDependencyNotFound { package, module })
            ==> exists|u: int|
            0 <= u < compiled_package.deps_compiled_units@.len() && {
                let unit = #[trigger] compiled_package.deps_compiled_units@[u];
                &&& unit.package == package
                &&& unit.name == module
                &&& unit_qualifies(compiled_package.package_name, unit)
                &&& (package_at(on_chain@, unit.address) matches Some(p) && bytes_of(
                    p.module_map@,
                    module,
                ) is None)
            },
{
    let units = &compiled_package.deps_compiled_units;
    let mut verified_dependencies: Vec<(AccountAddress, Dependency)> = Vec::new();
    let mut on_chain_module_count: usize = 0;
    let mut i: usize = 0;
    while i < units.len()
        invariant
            i <= units@.len(),
            units@ == compiled_package.deps_compiled_units@,
            on_chain_module_count <= i,
            forall|k: int|
                0 <= k < i && unit_qualifies(
                    compiled_package.package_name,
                    #[trigger] units@[k],
                ) ==> unit_matches_chain(on_chain@, units@[k]),
            forall|k: int|
                0 <= k < verified_dependencies@.len() ==> {
                    let entry = #[trigger] verified_dependencies@[k];
                    package_at(on_chain@, entry.0) matches Some(p) && {
                        &&& entry.1.module_bytes@.len() == p.module_map@.len()
                        &&& forall|m: int|
                            0 <= m < p.module_map@.len() ==> (
                            #[trigger] entry.1.module_bytes@[m]).0 == p.module_map@[m].0
                                && entry.1.module_bytes@[m].1@ == p.module_map@[m].1@
                    }
                },
        decreases units@.len() - i,
    {
        let unit = &units[i];
        let skip_unit = !unit.is_module || unit.package == compiled_package.package_name
            || unit.address == 0;
        if !skip_unit {
            // a module at an address verified earlier is checked against the
            // stored copy of that address's on-chain map
            match find_dependency(&verified_dependencies, unit.address) {
                Some(dep) => {
                    proof {
                        lemma_dependency_at_member(verified_dependencies@, unit.address);
                    }
                    let stored_bytes = match find_module(&dep.module_bytes, unit.name) {
                        Some(b) => b,
                        None => {
                            proof {
                                let u = i as int;
                                let k = choose|k: int|
                                    0 <= k < verified_dependencies@.len() && (
                                    #[trigger] verified_dependencies@[k]).0 == unit.address
                                        && verified_dependencies@[k].1 == dependency_at(
                                        verified_dependencies@,
                                        unit.address,
                                    )->0;
                                let p = package_at(on_chain@, unit.address)->0;
                                lemma_bytes_of_equal_maps(
                                    verified_dependencies@[k].1.module_bytes@,
                                    p.module_map@,
                                    unit.name,
                                );
                                assert(compiled_package.deps_compiled_units@[u] == units@[u]);
                            }
                            return Err(DependencyVerificationError::LocalDependencyNotFound {
                                package: unit.package,
                                module: unit.name,
                            });
                        },
                    };
                    if !bytes_eq(&unit.bytes, stored_bytes) {
                        proof {
                            let u = i as int;
                            let k = choose|k: int|
                                0 <= k < verified_dependencies@.len() && (
                                #[trigger] verified_dependencies@[k]).0 == unit.address
                                    && verified_dependencies@[k].1 == dependency_at(
                                    verified_dependencies@,
                                    unit.address,
                                )->0;
                            let p = package_at(on_chain@, unit.address)->0;
                            lemma_bytes_of_equal_maps(
                                verified_dependencies@[k].1.module_bytes@,
                                p.module_map@,
                                unit.name,
                            );
                            assert(compiled_package.deps_compiled_units@[u] == units@[u]);
                            assert(units@[u].bytes@ == unit.bytes@);
                        }
                        return Err(DependencyVerificationError::ModuleBytecodeMismatch {
                            package: unit.package,
                            module: unit.name,
                            address: unit.address,
                        });
                    }
                    proof {
                        let u = i as int;
                        let k = choose|k: int|
                            0 <= k < verified_dependencies@.len() && (
                            #[trigger] verified_dependencies@[k]).0 == unit.address
                                && verified_dependencies@[k].1 == dependency_at(
                                verified_dependencies@,
                                unit.address,
                            )->0;
                        let p = package_at(on_chain@, unit.address)->0;
                        lemma_bytes_of_equal_maps(
                            verified_dependencies@[k].1.module_bytes@,
                            p.module_map@,
                            unit.name,
                        );
                        assert(units@[u].bytes@ == unit.bytes@);
                        assert(unit_matches_chain(on_chain@, units@[u]));
                        assert forall|t: int|
                            0 <= t < u + 1 && unit_qualifies(
                                compiled_package.package_name,
                                #[trigger] units@[t],
                            ) implies unit_matches_chain(on_chain@, units@[t]) by {}
                    }
                    on_chain_module_count = on_chain_module_count + 1;
                    i = i + 1;
                    continue;
                },
                None => {},
            }
            let on_chain_package = match find_package(on_chain, unit.address) {
                Some(p) => p,
                None => {
                    proof {
                        let u = i as int;
                        assert(compiled_package.deps_compiled_units@[u] == units@[u]);
                        assert(units@[u].address == unit.address && unit_qualifies(
                            compiled_package.package_name,
                            units@[u],
                        ));
                    }
                    return Err(DependencyVerificationError::DependencyObjectReadFailure {
                        address: unit.address,
                    });
                },
            };
            let on_chain_bytes = match find_module(&on_chain_package.module_map, unit.name) {
                Some(b) => b,
                None => {
                    proof {
                        let u = i as int;
                        assert(compiled_package.deps_compiled_units@[u] == units@[u]);
                        assert(package_at(on_chain@, unit.address) == Some(*on_chain_package));
                    }
                    return Err(DependencyVerificationError::LocalDependencyNotFound {
                        package: unit.package,
                        module: unit.name,
                    });
                },
            };
            if !bytes_eq(&unit.bytes, on_chain_bytes) {
                proof {
                    let u = i as int;
                    assert(compiled_package.deps_compiled_units@[u] == units@[u]);
                    assert(units@[u].package == unit.package && units@[u].name == unit.name
                        && units@[u].address == unit.address && units@[u].is_module);
                    assert(package_at(on_chain@, unit.address) == Some(*on_chain_package));
                    assert(bytes_of(on_chain_package.module_map@, unit.name) == Some(
                        on_chain_bytes@,
                    ));
                    assert(unit.bytes@ != on_chain_bytes@);
                    assert(units@[u].bytes@ == unit.bytes@);
                }
                return Err(DependencyVerificationError::ModuleBytecodeMismatch {
                    package: unit.package,
                    module: unit.name,
                    address: unit.address,
                });
            }
            proof {
                let u = i as int;
                assert(units@[u].bytes@ == unit.bytes@);
                assert(package_at(on_chain@, unit.address) == Some(*on_chain_package));
                assert(unit_matches_chain(on_chain@, units@[u]));
            }
            on_chain_module_count = on_chain_module_count + 1;
            let module_bytes = copy_module_map(&on_chain_package.module_map);
            verified_dependencies.push(
                (unit.address, Dependency { symbol: unit.package, module_bytes }),
            );
            proof {
                assert forall|k: int|
                    0 <= k < verified_dependencies@.len() implies {
                    let entry = #[trigger] verified_dependencies@[k];
                    package_at(on_chain@, entry.0) matches Some(p) && {
                        &&& entry.1.module_bytes@.len() == p.module_map@.len()
                        &&& forall|m: int|
                            0 <= m < p.module_map@.len() ==> (
                            #[trigger] entry.1.module_bytes@[m]).0 == p.module_map@[m].0
                                && entry.1.module_bytes@[m].1@ == p.module_map@[m].1@
                    }
                } by {
                    if k < verified_dependencies@.len() - 1 {
                        assert(verified_dependencies@[k] == verified_dependencies@.drop_last()[k]);
                    }
                }
            }
        }
        i = i + 1;
    }
    // every individual module matched; the total module count must match too
    let len = units.len();
    if len > on_chain_module_count {
        let missing_modules = get_missing_modules(compiled_package, &verified_dependencies);
        proof {
            lemma_missing_from_units(units@, verified_dependencies@);
        }
        return Err(DependencyVerificationError::ModuleCountMismatch {
            expected: len,
            on_chain: on_chain_module_count,
            missing: missing_modules,
        });
    }
    Ok(DependencyVerificationResult { verified_dependencies })
}

} // verus!
