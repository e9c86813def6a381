//! Initialization of the optional hardware execution backend: picking a
//! discrete GPU and opening it with one graphics-capable queue. Only the
//! calls into the graphics library are taken on trust; which device and
//! which queue family get picked is decided here.

use std::sync::Arc;

use vstd::prelude::*;
use vulkano::device::physical::PhysicalDevice;
use vulkano::device::{Device, Queue};
use vulkano::instance::Instance;
use vulkano::VulkanLibrary;

verus! {

#[verifier::external_type_specification]
#[verifier::external_body]
pub struct ExVulkanLibrary(VulkanLibrary);

#[verifier::external_type_specification]
#[verifier::external_body]
pub struct ExInstance(Instance);

#[verifier::external_type_specification]
#[verifier::external_body]
pub struct ExPhysicalDevice(PhysicalDevice);

#[verifier::external_type_specification]
#[verifier::external_body]
pub struct ExDevice(Device);

#[verifier::external_type_specification]
#[verifier::external_body]
pub struct ExQueue(Queue);

/// Relies on vulkano::VulkanLibrary::new: loads the system's Vulkan
/// library; `None` when none can be loaded.
#[verifier::external_body]
fn load_library() -> Option<Arc<VulkanLibrary>> {
    VulkanLibrary::new().ok()
}

/// Relies on vulkano::instance::Instance::new, with default settings (no
/// extensions, no layers); `None` when creation fails.
#[verifier::external_body]
fn create_instance(library: Arc<VulkanLibrary>) -> Option<Arc<Instance>> {
    Instance::new(library, vulkano::instance::InstanceCreateInfo::default()).ok()
}

/// Relies on vulkano::instance::Instance::enumerate_physical_devices: the
/// physical devices of the machine; an enumeration failure yields none.
#[verifier::external_body]
fn enumerate_devices(instance: &Arc<Instance>) -> Vec<Arc<PhysicalDevice>> {
    match instance.enumerate_physical_devices() {
        Ok(it) => it.collect(),
        Err(_) => Vec::new(),
    }
}

/// Relies on vulkano::device::physical::PhysicalDevice::properties: whether
/// the device reports itself as a discrete GPU.
#[verifier::external_body]
fn is_discrete_gpu(dev: &Arc<PhysicalDevice>) -> bool {
    dev.properties().device_type == vulkano::device::physical::PhysicalDeviceType::DiscreteGpu
}

/// Relies on vulkano::device::physical::PhysicalDevice::queue_family_properties:
/// one flag per queue family of the device, true when that family supports
/// graphics.
#[verifier::external_body]
fn graphics_flags(dev: &Arc<PhysicalDevice>) -> Vec<bool> {
    dev.queue_family_properties().iter().map(
        |q| q.queue_flags.intersects(vulkano::device::QueueFlags::GRAPHICS),
    ).collect()
}

/// Relies on vulkano::device::Device::new: opens the device with one queue
/// of the given family at its default priority, asking for the extended
/// storage image formats the compute dispatch needs; `None` when creation
/// fails or no queue comes back.
#[verifier::external_body]
fn open_device(dev: &Arc<PhysicalDevice>, family: u32) -> Option<(Arc<Device>, Arc<Queue>)> {
    let create_info = vulkano::device::DeviceCreateInfo {
        queue_create_infos: vec![
            vulkano::device::QueueCreateInfo { queue_family_index: family, ..Default::default() },
        ],
        enabled_features: vulkano::device::DeviceFeatures {
            shader_storage_image_extended_formats: true,
            ..Default::default()
        },
        ..Default::default()
    };
    match Device::new(dev.clone(), create_info) {
        Ok((device, mut queues)) => queues.next().map(|q| (device, q)),
        Err(_) => None,
    }
}

/// The position of the first `true`, if any.
fn first_true(flags: &Vec<bool>) -> (r: Option<usize>)
    ensures
        r matches Some(i) ==> i < flags@.len() && flags@[i as int] && (forall|j: int|
            0 <= j < i ==> !flags@[j]),
        r is None ==> forall|j: int| 0 <= j < flags@.len() ==> !flags@[j],
{
    let mut i: usize = 0;
    while i < flags.len()
        invariant
            i <= flags@.len(),
            forall|j: int| 0 <= j < i ==> !flags@[j],
        decreases flags@.len() - i,
    {
        if flags[i] {
            return Some(i);
        }
        i = i + 1;
    }
    None
}

/// Opens the machine's first discrete GPU on the first of its queue
/// families that supports graphics. Returns `None` when there is no Vulkan
/// library, no instance, no discrete GPU, no graphics-capable queue family
/// on it, or the device cannot be opened.
pub fn vk_init() -> (r: Option<(Arc<Device>, Arc<Queue>)>) {
    let library = match load_library() {
        Some(l) => l,
        None => {
            return None;
        },
    };
    let instance = match create_instance(library) {
        Some(i) => i,
        None => {
            return None;
        },
    };
    let devices = enumerate_devices(&instance);
    let mut idx: usize = 0;
    let mut chosen: Option<usize> = None;
    while idx < devices.len() && chosen.is_none()
        invariant
            idx <= devices@.len(),
            chosen matches Some(d) ==> d < devices@.len(),
        decreases devices@.len() - idx,
    {
        if is_discrete_gpu(&devices[idx]) {
            chosen = Some(idx);
        }
        idx = idx + 1;
    }
    let di = match chosen {
        Some(d) => d,
        None => {
            return None;
        },
    };
    let flags = graphics_flags(&devices[di]);
    let fam = match first_true(&flags) {
        Some(f) => f,
        None => {
            return None;
        },
    };
    if fam >= u32::MAX as usize {
        return None;
    }
    open_device(&devices[di], fam as u32)
}

} // verus!
